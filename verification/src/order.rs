//! Orders, their lifecycle types, and the price-time priority keys.

use vstd::prelude::*;
use crate::decimal::{Decimal, DECIMAL_UNIT, MAX_MANTISSA};

verus! {

#[derive(Clone, Copy, Debug, PartialEq, Eq, Structural)]
pub enum OrderSide {
    ASK,
    BID,
}

#[derive(Clone, Copy, Debug, PartialEq, Eq, Structural)]
pub enum OrderType {
    LIMIT,
    MARKET,
}

/// The steps of an order's life that sinks are told about.
#[derive(Clone, Copy, Debug, PartialEq, Eq, Structural)]
pub enum OrderEventType {
    PUT,
    UPDATE,
    FINISH,
    EXPIRED,
}

/// The lifecycle state a persisted order row reports.
#[derive(Clone, Copy, Debug, PartialEq, Eq, Structural)]
pub enum OrderStatus {
    Active,
    Filled,
    Cancelled,
    Expired,
}

/// Cap on the mantissa of prices, amounts and fee rates accepted from
/// callers; keeps every product the matching computes inside `i128`.
pub const MAX_INPUT_MANTISSA: i128 = 1_000_000_000_000_000_000;

/// An order.  `market` is the market's index, times are milliseconds.
#[derive(Clone, Copy, Debug, PartialEq, Eq, Structural)]
pub struct Order {
    pub id: u64,
    pub market: u32,
    pub type_: OrderType,
    pub side: OrderSide,
    pub user: u32,
    pub post_only: bool,
    pub price: Decimal,
    pub amount: Decimal,
    pub maker_fee: Decimal,
    pub taker_fee: Decimal,
    pub create_time: u64,
    pub remain: Decimal,
    pub frozen: Decimal,
    pub finished_base: Decimal,
    pub finished_quote: Decimal,
    pub finished_fee: Decimal,
    pub update_time: u64,
}

/// Sort key of the ask book: better = lower price, then earlier id.
#[derive(Clone, Copy, Debug, PartialEq, Eq, PartialOrd, Ord)]
pub struct MarketKeyAsk {
    pub order_price: Decimal,
    pub order_id: u64,
}

/// Sort key of the bid book: better = higher price, then earlier id.
#[derive(Clone, Copy, Debug, PartialEq, Eq)]
pub struct MarketKeyBid {
    pub order_price: Decimal,
    pub order_id: u64,
}

impl PartialOrd for MarketKeyBid {
    fn partial_cmp(&self, other: &MarketKeyBid) -> (r: Option<core::cmp::Ordering>) {
        if self.order_price.mantissa > other.order_price.mantissa {
            Some(core::cmp::Ordering::Less)
        } else if self.order_price.mantissa < other.order_price.mantissa {
            Some(core::cmp::Ordering::Greater)
        } else if self.order_id < other.order_id {
            Some(core::cmp::Ordering::Less)
        } else if self.order_id > other.order_id {
            Some(core::cmp::Ordering::Greater)
        } else {
            Some(core::cmp::Ordering::Equal)
        }
    }
}

impl vstd::std_specs::cmp::PartialOrdSpecImpl for MarketKeyBid {
    open spec fn obeys_partial_cmp_spec() -> bool {
        true
    }

    open spec fn partial_cmp_spec(&self, other: &MarketKeyBid) -> Option<core::cmp::Ordering> {
        if self.order_price.mantissa > other.order_price.mantissa {
            Some(core::cmp::Ordering::Less)
        } else if self.order_price.mantissa < other.order_price.mantissa {
            Some(core::cmp::Ordering::Greater)
        } else if self.order_id < other.order_id {
            Some(core::cmp::Ordering::Less)
        } else if self.order_id > other.order_id {
            Some(core::cmp::Ordering::Greater)
        } else {
            Some(core::cmp::Ordering::Equal)
        }
    }
}

impl Order {
    pub fn get_ask_key(&self) -> (r: MarketKeyAsk)
        ensures
            r.order_price == self.price,
            r.order_id == self.id,
    {
        MarketKeyAsk { order_price: self.price, order_id: self.id }
    }

    pub fn get_bid_key(&self) -> (r: MarketKeyBid)
        ensures
            r.order_price == self.price,
            r.order_id == self.id,
    {
        MarketKeyBid { order_price: self.price, order_id: self.id }
    }

    pub fn is_ask(&self) -> (r: bool)
        ensures
            r == (self.side == OrderSide::ASK),
    {
        self.side == OrderSide::ASK
    }
}

/// Bounds every order in the engine obeys, and the conservation law:
/// what is finished plus what remains is what was asked for.
pub open spec fn order_wf(o: Order) -> bool {
    &&& 0 <= o.price.mantissa <= MAX_INPUT_MANTISSA
    &&& 0 < o.amount.mantissa <= MAX_INPUT_MANTISSA
    &&& 0 <= o.maker_fee.mantissa < DECIMAL_UNIT
    &&& 0 <= o.taker_fee.mantissa < DECIMAL_UNIT
    &&& 0 <= o.remain.mantissa <= o.amount.mantissa
    &&& o.finished_base.mantissa + o.remain.mantissa == o.amount.mantissa
    &&& 0 <= o.frozen.mantissa <= MAX_MANTISSA
    &&& 0 <= o.finished_base.mantissa
    &&& 0 <= o.finished_quote.mantissa <= MAX_MANTISSA
    &&& 0 <= o.finished_fee.mantissa <= MAX_MANTISSA
}

/// What a limit order keeps frozen.  An ask froze its base amount, so
/// frozen equals the unfilled remainder.  A bid froze the quote value
/// of its full amount at its limit price; trades spend from it at the
/// maker's price, never above the limit, so what is frozen plus what
/// was spent equals the initial freeze and covers the remainder.
pub open spec fn resting_frozen_exact(o: Order) -> bool {
    match o.side {
        OrderSide::ASK => o.frozen.mantissa == o.remain.mantissa,
        OrderSide::BID => (o.frozen.mantissa + o.finished_quote.mantissa) * DECIMAL_UNIT
            == o.amount.mantissa * o.price.mantissa && o.finished_quote.mantissa * DECIMAL_UNIT
            <= o.finished_base.mantissa * o.price.mantissa,
    }
}

/// An order as it may rest in a book of market `midx`.
pub open spec fn resting_wf(o: Order, midx: u32) -> bool {
    &&& order_wf(o)
    &&& o.market == midx
    &&& o.type_ == OrderType::LIMIT
    &&& o.remain.mantissa > 0
    &&& o.price.mantissa > 0
    &&& resting_frozen_exact(o)
}

/// Sum of the frozen amounts of `u`'s orders in `s`.
pub open spec fn user_frozen(s: Seq<Order>, u: u32) -> int
    decreases s.len(),
{
    if s.len() == 0 {
        0
    } else {
        user_frozen(s.drop_last(), u) + if s.last().user == u {
            s.last().frozen.mantissa as int
        } else {
            0
        }
    }
}

/// Number of orders of `u` in `s`.
pub open spec fn user_order_count(s: Seq<Order>, u: u32) -> int
    decreases s.len(),
{
    if s.len() == 0 {
        0
    } else {
        user_order_count(s.drop_last(), u) + if s.last().user == u {
            1int
        } else {
            0int
        }
    }
}

/// What inserting one order adds to each user's sums.
pub open spec fn frozen_share(o: Order, u: u32) -> int {
    if o.user == u {
        o.frozen.mantissa as int
    } else {
        0
    }
}

pub open spec fn count_share(o: Order, u: u32) -> int {
    if o.user == u {
        1int
    } else {
        0int
    }
}

pub proof fn lemma_user_sums_push(s: Seq<Order>, o: Order, u: u32)
    ensures
        user_frozen(s.push(o), u) == user_frozen(s, u) + frozen_share(o, u),
        user_order_count(s.push(o), u) == user_order_count(s, u) + count_share(o, u),
{
    assert(s.push(o).drop_last() =~= s);
    assert(s.push(o).last() == o);
}

pub proof fn lemma_user_sums_insert(s: Seq<Order>, i: int, o: Order, u: u32)
    requires
        0 <= i <= s.len(),
    ensures
        user_frozen(s.insert(i, o), u) == user_frozen(s, u) + frozen_share(o, u),
        user_order_count(s.insert(i, o), u) == user_order_count(s, u) + count_share(o, u),
    decreases s.len(),
{
    if i == s.len() {
        assert(s.insert(i, o) =~= s.push(o));
        lemma_user_sums_push(s, o, u);
    } else {
        let t = s.insert(i, o);
        assert(t.last() == s.last());
        assert(t.drop_last() =~= s.drop_last().insert(i, o));
        lemma_user_sums_insert(s.drop_last(), i, o, u);
    }
}

pub proof fn lemma_user_sums_remove(s: Seq<Order>, i: int, u: u32)
    requires
        0 <= i < s.len(),
    ensures
        user_frozen(s.remove(i), u) == user_frozen(s, u) - frozen_share(s[i], u),
        user_order_count(s.remove(i), u) == user_order_count(s, u) - count_share(s[i], u),
    decreases s.len(),
{
    if i == s.len() - 1 {
        assert(s.remove(i) =~= s.drop_last());
    } else {
        let t = s.remove(i);
        assert(t.last() == s.last());
        assert(t.drop_last() =~= s.drop_last().remove(i));
        lemma_user_sums_remove(s.drop_last(), i, u);
    }
}

pub proof fn lemma_user_sums_update(s: Seq<Order>, i: int, o: Order, u: u32)
    requires
        0 <= i < s.len(),
    ensures
        user_frozen(s.update(i, o), u) == user_frozen(s, u) - frozen_share(s[i], u)
            + frozen_share(o, u),
        user_order_count(s.update(i, o), u) == user_order_count(s, u) - count_share(s[i], u)
            + count_share(o, u),
    decreases s.len(),
{
    let t = s.update(i, o);
    if i == s.len() - 1 {
        assert(t.last() == o);
        assert(t.drop_last() =~= s.drop_last());
    } else {
        assert(t.last() == s.last());
        assert(t.drop_last() =~= s.drop_last().update(i, o));
        lemma_user_sums_update(s.drop_last(), i, o, u);
    }
}

/// What a taker asks the matching engine to do.
pub struct OrderInput {
    pub user_id: u32,
    pub side: OrderSide,
    pub type_: OrderType,
    pub amount: Decimal,
    pub price: Decimal,
    pub quote_limit: Decimal,
    pub taker_fee: Decimal,
    pub maker_fee: Decimal,
    pub market: String,
    pub post_only: bool,
}

/// Token amounts an accepted order commits to exchange.
pub struct OrderCommitment {
    pub token_sell: u32,
    pub token_buy: u32,
    pub total_sell: u32,
    pub total_buy: u32,
}

} // verus!
