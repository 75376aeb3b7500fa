//! One market: its two price-time priority books and their upkeep.
//!
//! The ask book is sorted by (price ascending, id ascending), the bid
//! book by (price descending, id ascending); the head of each book is
//! the best order of its side.  Ids are unique across both books.

use vstd::prelude::*;
use crate::asset::{asset_index, has_asset, AssetManager};
use crate::balance::{avail_of, balance_of, frozen_of, BalanceManager, BalanceType};
use crate::config;
use crate::decimal::{
    div_sat_at, lemma_pow10_values, pow10, trunc_at, Decimal, DECIMAL_SCALE, DECIMAL_UNIT,
    MAX_MANTISSA,
};
use crate::order::{
    count_share, frozen_share, lemma_user_sums_insert, lemma_user_sums_push,
    lemma_user_sums_remove, lemma_user_sums_update, order_wf, resting_frozen_exact, resting_wf,
    user_frozen, user_order_count, Order, OrderEventType, OrderInput, OrderSide, OrderType,
    MAX_INPUT_MANTISSA,
};
use crate::persist::Message;
use crate::sequencer::Sequencer;
use crate::EngineError;

verus! {

/// A finished exchange of base for quote between two orders.
#[derive(Clone, Copy, Debug, PartialEq, Eq, Structural)]
pub struct Trade {
    pub id: u64,
    pub timestamp: u64,
    pub market: u32,
    pub price: Decimal,
    pub amount: Decimal,
    pub quote_amount: Decimal,
    pub ask_user_id: u32,
    pub ask_order_id: u64,
    pub ask_fee: Decimal,
    pub bid_user_id: u32,
    pub bid_order_id: u64,
    pub bid_fee: Decimal,
    pub taker_side: OrderSide,
}

/// One aggregated price level of the depth view.
#[derive(Clone, Copy, Debug, PartialEq, Eq, Structural)]
pub struct PriceInfo {
    pub price: Decimal,
    pub amount: Decimal,
}

/// The two sides of the depth view.
pub struct MarketDepth {
    pub asks: Vec<PriceInfo>,
    pub bids: Vec<PriceInfo>,
}

/// Counts and open amounts of one market.
pub struct MarketStatus {
    pub name: String,
    pub ask_count: usize,
    pub ask_amount: Decimal,
    pub bid_count: usize,
    pub bid_amount: Decimal,
    pub trade_count: u64,
}

/// Cap on resting orders per market, a machine limit that keeps the
/// book bookkeeping within `usize` on every architecture.
pub const BOOK_CAP: usize = 1_000_000_000;

/// Strict priority of the ask book: lower price first, then earlier id.
pub open spec fn ask_before(a: Order, b: Order) -> bool {
    a.price.mantissa < b.price.mantissa || (a.price.mantissa == b.price.mantissa && a.id < b.id)
}

/// Strict priority of the bid book: higher price first, then earlier id.
pub open spec fn bid_before(a: Order, b: Order) -> bool {
    a.price.mantissa > b.price.mantissa || (a.price.mantissa == b.price.mantissa && a.id < b.id)
}

/// Priority of the book of the given side.
pub open spec fn side_before(side: OrderSide, a: Order, b: Order) -> bool {
    match side {
        OrderSide::ASK => ask_before(a, b),
        OrderSide::BID => bid_before(a, b),
    }
}

/// Every order of `s` may rest in this book and they stand in strict
/// priority order.
pub open spec fn book_ok(s: Seq<Order>, midx: u32, side: OrderSide, ap: u32, pp: u32) -> bool {
    &&& forall|i: int|
        0 <= i < s.len() ==> resting_wf(#[trigger] s[i], midx) && s[i].side == side
            && (s[i].remain.mantissa as int) % pow10((DECIMAL_SCALE - ap) as nat) == 0
            && (s[i].price.mantissa as int) % pow10((DECIMAL_SCALE - pp) as nat) == 0
    &&& forall|i: int, j: int| 0 <= i < j < s.len() ==> side_before(side, s[i], s[j])
}

/// No order id repeats, within a book or across the two.
pub open spec fn ids_distinct(a: Seq<Order>, b: Seq<Order>) -> bool {
    &&& forall|i: int, j: int| 0 <= i < j < a.len() ==> a[i].id != a[j].id
    &&& forall|i: int, j: int| 0 <= i < j < b.len() ==> b[i].id != b[j].id
    &&& forall|i: int, j: int|
        0 <= i < a.len() && 0 <= j < b.len() ==> #[trigger] a[i].id != #[trigger] b[j].id
}

/// The price level a price falls into: itself for a nonpositive
/// interval, otherwise the next multiple of the interval upwards for
/// asks and downwards for bids, capped at the decimal bound.
pub open spec fn spec_bucket(price: int, interval: int, round_up: bool) -> int {
    if interval <= 0 {
        price
    } else {
        let down = (price / interval) * interval;
        if round_up && down < price {
            if down + interval > MAX_MANTISSA {
                MAX_MANTISSA as int
            } else {
                down + interval
            }
        } else {
            down
        }
    }
}

/// The aggregated levels of one book: walk it best-first, merge an
/// order into the last level when its bucket price matches, else open
/// a new level; amounts saturate at the decimal bound.
pub open spec fn depth_levels(s: Seq<Order>, interval: int, round_up: bool) -> Seq<PriceInfo>
    decreases s.len(),
{
    if s.len() == 0 {
        Seq::empty()
    } else {
        let prev = depth_levels(s.drop_last(), interval, round_up);
        let b = spec_bucket(s.last().price.mantissa as int, interval, round_up);
        let amt = s.last().remain.mantissa as int;
        if prev.len() > 0 && prev.last().price.mantissa == b {
            let merged = if prev.last().amount.mantissa + amt <= MAX_MANTISSA {
                prev.last().amount.mantissa + amt
            } else {
                MAX_MANTISSA as int
            };
            prev.update(
                prev.len() - 1,
                PriceInfo {
                    price: Decimal { mantissa: b as i128 },
                    amount: Decimal { mantissa: merged as i128 },
                },
            )
        } else {
            prev.push(
                PriceInfo {
                    price: Decimal { mantissa: b as i128 },
                    amount: Decimal { mantissa: amt as i128 },
                },
            )
        }
    }
}

/// What every recorded trade satisfies: it belongs to this market,
/// its amounts are positive, its quote value is the exact product of
/// price and amount, and each fee is bounded by the leg it is charged
/// on.
pub open spec fn trade_sane(t: Trade, midx: u32) -> bool {
    &&& t.market == midx
    &&& t.amount.mantissa > 0
    &&& t.price.mantissa > 0
    &&& t.quote_amount.mantissa * DECIMAL_UNIT == t.amount.mantissa * t.price.mantissa
    &&& 0 <= t.bid_fee.mantissa <= t.amount.mantissa
    &&& 0 <= t.ask_fee.mantissa <= t.quote_amount.mantissa
}

/// Sum of the open base amounts of a book.
pub open spec fn total_remain(s: Seq<Order>) -> int
    decreases s.len(),
{
    if s.len() == 0 {
        0
    } else {
        total_remain(s.drop_last()) + s.last().remain.mantissa
    }
}

pub open spec fn has_order_id(s: Seq<Order>, id: u64) -> bool {
    exists|i: int| 0 <= i < s.len() && s[i].id == id
}

/// The books never cross: every resting ask is priced strictly above
/// every resting bid.  Matching restores this before it rests anything.
pub open spec fn books_uncrossed(asks: Seq<Order>, bids: Seq<Order>) -> bool {
    forall|i: int, j: int|
        0 <= i < asks.len() && 0 <= j < bids.len() ==> (#[trigger] asks[i].price.mantissa) > (
        #[trigger] bids[j].price.mantissa)
}

/// The position of the order with this id (unique when ids are distinct).
pub open spec fn index_of_order(s: Seq<Order>, id: u64) -> int {
    choose|i: int| 0 <= i < s.len() && s[i].id == id
}

/// With distinct ids, any position holding `id` is `index_of_order`.
pub proof fn lemma_index_of_order(s: Seq<Order>, id: u64, i: int)
    requires
        forall|x: int, y: int| 0 <= x < y < s.len() ==> s[x].id != s[y].id,
        0 <= i < s.len(),
        s[i].id == id,
    ensures
        has_order_id(s, id),
        index_of_order(s, id) == i,
{
    assert(has_order_id(s, id));
    let j = index_of_order(s, id);
    assert(0 <= j < s.len() && s[j].id == id);
}

/// One price-time priority market.
/// Exactly when [`Market::new`] accepts a configuration entry against
/// the registered assets: both sides registered and distinct, every
/// precision within the assets' ledger scales, and a minimum amount in
/// range at the amount precision.
pub open spec fn market_config_acceptable(entry: config::Market, ams: Seq<crate::config::Asset>) -> bool {
    &&& has_asset(ams, entry.base@)
    &&& has_asset(ams, entry.quote@)
    &&& ({
        let b = asset_index(ams, entry.base@);
        let q = asset_index(ams, entry.quote@);
        &&& b != q
        &&& b < u32::MAX as int
        &&& q < u32::MAX as int
        &&& entry.amount_prec <= ams[b].prec_save
        &&& entry.amount_prec <= ams[q].prec_save
        &&& entry.price_prec <= ams[q].prec_save
        &&& entry.amount_prec + entry.price_prec <= ams[q].prec_save
        &&& entry.fee_prec <= ams[b].prec_save
        &&& entry.fee_prec <= ams[q].prec_save
    })
    &&& 0 <= entry.min_amount.mantissa <= MAX_INPUT_MANTISSA
    &&& entry.min_amount.spec_has_prec(entry.amount_prec as nat)
}

pub struct Market {
    pub name: String,
    pub idx: u32,
    pub base: u32,
    pub quote: u32,
    pub amount_prec: u32,
    pub price_prec: u32,
    pub fee_prec: u32,
    pub min_amount: Decimal,
    pub price: Decimal,
    pub asks: Vec<Order>,
    pub bids: Vec<Order>,
    pub trade_count: u64,
}

impl Market {
    /// Precision side conditions against the asset catalog: every amount
    /// the matching produces fits the ledger scale of its asset.
    pub open spec fn precs_ok(self, am: AssetManager) -> bool {
        &&& self.base < am.assets@.len()
        &&& self.quote < am.assets@.len()
        &&& self.base != self.quote
        &&& self.amount_prec <= am.assets@[self.base as int].prec_save
        &&& self.amount_prec + self.price_prec <= am.assets@[self.quote as int].prec_save
        &&& self.fee_prec <= am.assets@[self.base as int].prec_save
        &&& self.fee_prec <= am.assets@[self.quote as int].prec_save
    }

    pub open spec fn wf(self, am: AssetManager) -> bool {
        &&& self.precs_ok(am)
        &&& 0 <= self.min_amount.mantissa <= MAX_INPUT_MANTISSA
        &&& 0 <= self.price.mantissa <= MAX_INPUT_MANTISSA
        &&& self.asks@.len() + self.bids@.len() <= BOOK_CAP
        &&& book_ok(self.asks@, self.idx, OrderSide::ASK, self.amount_prec, self.price_prec)
        &&& book_ok(self.bids@, self.idx, OrderSide::BID, self.amount_prec, self.price_prec)
        &&& ids_distinct(self.asks@, self.bids@)
        &&& books_uncrossed(self.asks@, self.bids@)
    }

    /// Builds a market over registered assets; rejects unknown assets,
    /// equal sides, precisions beyond the assets' ledger scales, and a
    /// minimum amount that is negative, too large, or finer than the
    /// amount precision.
    pub fn new(entry: &config::Market, idx: u32, am: &AssetManager) -> (r: Result<
        Market,
        EngineError,
    >)
        requires
            am.wf(),
        ensures
            r is Err ==> r == Err::<Market, EngineError>(EngineError::InvalidArgument),
            r is Ok <==> market_config_acceptable(*entry, am.assets@),
            r is Ok ==> ({
                let m = r->Ok_0;
                &&& m.wf(*am)
                &&& m.name@ == entry.name@
                &&& m.idx == idx
                &&& am.assets@[m.base as int].id@ == entry.base@
                &&& am.assets@[m.quote as int].id@ == entry.quote@
                &&& m.amount_prec == entry.amount_prec
                &&& m.price_prec == entry.price_prec
                &&& m.fee_prec == entry.fee_prec
                &&& m.min_amount == entry.min_amount
                &&& m.price.mantissa == 0
                &&& m.asks@.len() == 0
                &&& m.bids@.len() == 0
                &&& m.trade_count == 0
                &&& m.min_amount.spec_has_prec(m.amount_prec as nat)
            }),
    {
        let base = match am.find_asset(&entry.base) {
            Some(i) => i,
            None => {
                return Err(EngineError::InvalidArgument);
            },
        };
        let quote = match am.find_asset(&entry.quote) {
            Some(i) => i,
            None => {
                return Err(EngineError::InvalidArgument);
            },
        };
        proof {
            crate::asset::lemma_asset_index_unique(am.assets@, entry.base@, base as int);
            crate::asset::lemma_asset_index_unique(am.assets@, entry.quote@, quote as int);
        }
        if base == quote {
            return Err(EngineError::InvalidArgument);
        }
        if base >= u32::MAX as usize || quote >= u32::MAX as usize {
            return Err(EngineError::InvalidArgument);
        }
        let base_prec = am.assets[base].prec_save;
        let quote_prec = am.assets[quote].prec_save;
        if entry.amount_prec > base_prec || entry.amount_prec > quote_prec || entry.price_prec
            > quote_prec || entry.amount_prec + entry.price_prec > quote_prec || entry.fee_prec
            > base_prec || entry.fee_prec > quote_prec {
            return Err(EngineError::InvalidArgument);
        }
        if entry.min_amount.mantissa < 0 || entry.min_amount.mantissa > MAX_INPUT_MANTISSA {
            return Err(EngineError::InvalidArgument);
        }
        if !entry.min_amount.has_prec(entry.amount_prec) {
            return Err(EngineError::InvalidArgument);
        }
        proof {
            crate::asset::lemma_asset_index_unique(am.assets@, entry.base@, base as int);
            crate::asset::lemma_asset_index_unique(am.assets@, entry.quote@, quote as int);
        }
        Ok(
            Market {
                name: entry.name.clone(),
                idx,
                base: base as u32,
                quote: quote as u32,
                amount_prec: entry.amount_prec,
                price_prec: entry.price_prec,
                fee_prec: entry.fee_prec,
                min_amount: entry.min_amount,
                price: Decimal::zero(),
                asks: Vec::new(),
                bids: Vec::new(),
                trade_count: 0,
            },
        )
    }

    /// Finds the resting order with this id: its side and position.
    pub fn find_order(&self, order_id: u64) -> (r: Option<(bool, usize)>)
        ensures
            match r {
                Some((is_ask, i)) => {
                    if is_ask {
                        i < self.asks@.len() && self.asks@[i as int].id == order_id
                    } else {
                        i < self.bids@.len() && self.bids@[i as int].id == order_id
                            && !has_order_id(self.asks@, order_id)
                    }
                },
                None => !has_order_id(self.asks@, order_id) && !has_order_id(
                    self.bids@,
                    order_id,
                ),
            },
    {
        let n = self.asks.len();
        let mut i: usize = 0;
        while i < n
            invariant
                n == self.asks@.len(),
                i <= n,
                forall|j: int| 0 <= j < i ==> #[trigger] self.asks@[j].id != order_id,
            decreases n - i,
        {
            if self.asks[i].id == order_id {
                return Some((true, i));
            }
            i = i + 1;
        }
        let m = self.bids.len();
        let mut i: usize = 0;
        while i < m
            invariant
                m == self.bids@.len(),
                i <= m,
                forall|j: int| 0 <= j < i ==> #[trigger] self.bids@[j].id != order_id,
                !has_order_id(self.asks@, order_id),
            decreases m - i,
        {
            if self.bids[i].id == order_id {
                return Some((false, i));
            }
            i = i + 1;
        }
        None
    }

    /// A copy of the resting order with this id.
    pub fn get(&self, order_id: u64) -> (r: Option<Order>)
        requires
            forall|x: int, y: int| 0 <= x < y < self.asks@.len() ==> self.asks@[x].id
                != self.asks@[y].id,
            forall|x: int, y: int| 0 <= x < y < self.bids@.len() ==> self.bids@[x].id
                != self.bids@[y].id,
        ensures
            match r {
                Some(o) => o.id == order_id && (has_order_id(self.asks@, order_id) || has_order_id(
                    self.bids@,
                    order_id,
                )) && o == order_with_id(*self, order_id),
                None => !has_order_id(self.asks@, order_id) && !has_order_id(
                    self.bids@,
                    order_id,
                ),
            },
    {
        match self.find_order(order_id) {
            Some((is_ask, i)) => {
                if is_ask {
                    proof {
                        lemma_index_of_order(self.asks@, order_id, i as int);
                    }
                    Some(self.asks[i])
                } else {
                    proof {
                        lemma_index_of_order(self.bids@, order_id, i as int);
                    }
                    Some(self.bids[i])
                }
            },
            None => None,
        }
    }

    /// How many orders this user has resting in this market.
    pub fn get_order_num_of_user(&self, user: u32) -> (r: usize)
        requires
            self.asks@.len() + self.bids@.len() <= BOOK_CAP,
        ensures
            r == user_order_count(self.asks@, user) + user_order_count(self.bids@, user),
    {
        let mut cnt: usize = count_side(&self.asks, user);
        let c2: usize = count_side(&self.bids, user);
        proof {
            lemma_user_order_count_bound(self.asks@, user);
            lemma_user_order_count_bound(self.bids@, user);
        }
        cnt + c2
    }


    /// The asset a resting order of this side keeps frozen.
    pub open spec fn frozen_asset(self, side: OrderSide) -> u32 {
        match side {
            OrderSide::ASK => self.base,
            OrderSide::BID => self.quote,
        }
    }

    /// Cancels the resting order with this id: removes it from its book
    /// and returns its frozen amount to the owner's available balance.
    /// Fails with `NotFound`, and only then, when no such order rests
    /// here; nothing changes in that case.
    pub fn cancel(
        &mut self,
        balance_manager: &mut BalanceManager,
        msgs: &mut Vec<Message>,
        order_id: u64,
    ) -> (r: Result<Order, EngineError>)
        requires
            old(self).wf(old(balance_manager).asset_manager),
            old(balance_manager).wf(),
            forall|u: u32|
                #[trigger] frozen_of(old(balance_manager).entries@, u, old(self).base)
                    >= user_frozen(old(self).asks@, u),
            forall|u: u32|
                #[trigger] frozen_of(old(balance_manager).entries@, u, old(self).quote)
                    >= user_frozen(old(self).bids@, u),
        ensures
            final(balance_manager).asset_manager == old(balance_manager).asset_manager,
            final(self).wf(final(balance_manager).asset_manager),
            final(balance_manager).wf(),
            final(self).name == old(self).name,
            final(self).idx == old(self).idx,
            final(self).base == old(self).base,
            final(self).quote == old(self).quote,
            final(self).amount_prec == old(self).amount_prec,
            final(self).price_prec == old(self).price_prec,
            final(self).fee_prec == old(self).fee_prec,
            final(self).min_amount == old(self).min_amount,
            final(self).price == old(self).price,
            final(self).trade_count == old(self).trade_count,
            r is Err <==> !has_order_id(old(self).asks@, order_id) && !has_order_id(
                old(self).bids@,
                order_id,
            ),
            r is Err ==> r == Err::<Order, EngineError>(EngineError::NotFound) && *final(self)
                == *old(self) && *final(balance_manager) == *old(balance_manager) && final(msgs)@
                == old(msgs)@,
            r is Ok ==> ({
                let o = r->Ok_0;
                &&& o.id == order_id
                &&& resting_wf(o, old(self).idx)
                &&& ((o.side == OrderSide::ASK) <==> has_order_id(old(self).asks@, order_id))
                &&& (o.side == OrderSide::ASK ==> o == old(self).asks@[index_of_order(
                    old(self).asks@,
                    order_id,
                )])
                &&& (o.side == OrderSide::BID ==> o == old(self).bids@[index_of_order(
                    old(self).bids@,
                    order_id,
                )])
                &&& (o.side == OrderSide::ASK ==> final(self).bids@ == old(self).bids@
                    && final(self).asks@ == old(self).asks@.remove(
                    index_of_order(old(self).asks@, order_id),
                ))
                &&& (o.side == OrderSide::BID ==> final(self).asks@ == old(self).asks@
                    && final(self).bids@ == old(self).bids@.remove(
                    index_of_order(old(self).bids@, order_id),
                ))
                &&& forall|u: u32|
                    #[trigger] user_frozen(final(self).asks@, u) == user_frozen(old(self).asks@, u)
                        - (if o.side == OrderSide::ASK {
                        frozen_share(o, u)
                    } else {
                        0
                    })
                &&& forall|u: u32|
                    #[trigger] user_frozen(final(self).bids@, u) == user_frozen(old(self).bids@, u)
                        - (if o.side == OrderSide::BID {
                        frozen_share(o, u)
                    } else {
                        0
                    })
                &&& forall|u: u32|
                    #[trigger] user_order_count(final(self).asks@, u) == user_order_count(
                        old(self).asks@,
                        u,
                    ) - (if o.side == OrderSide::ASK {
                        count_share(o, u)
                    } else {
                        0
                    })
                &&& forall|u: u32|
                    #[trigger] user_order_count(final(self).bids@, u) == user_order_count(
                        old(self).bids@,
                        u,
                    ) - (if o.side == OrderSide::BID {
                        count_share(o, u)
                    } else {
                        0
                    })
                &&& forall|u2: u32, a2: u32|
                    #[trigger] frozen_of(final(balance_manager).entries@, u2, a2) == frozen_of(
                        old(balance_manager).entries@,
                        u2,
                        a2,
                    ) - (if u2 == o.user && a2 == old(self).frozen_asset(o.side) {
                        o.frozen.mantissa as int
                    } else {
                        0
                    })
                &&& forall|u2: u32, a2: u32|
                    #[trigger] avail_of(final(balance_manager).entries@, u2, a2) == avail_of(
                        old(balance_manager).entries@,
                        u2,
                        a2,
                    ) + (if u2 == o.user && a2 == old(self).frozen_asset(o.side) {
                        o.frozen.mantissa as int
                    } else {
                        0
                    })
                &&& final(msgs)@ == old(msgs)@.push(
                    Message::OrderMessage(o, OrderEventType::FINISH),
                )
            }),
    {
        let found = self.find_order(order_id);
        match found {
            None => Err(EngineError::NotFound),
            Some((is_ask, i)) => {
                let ghost pre_asks = self.asks@;
                let ghost pre_bids = self.bids@;
                let o: Order;
                if is_ask {
                    proof {
                        lemma_index_of_order(pre_asks, order_id, i as int);
                    }
                    o = remove_from_book(
                        &mut self.asks,
                        i,
                        OrderSide::ASK,
                        Ghost(self.idx),
                        Ghost(self.amount_prec),
                        Ghost(self.price_prec),
                    );
                    proof {
                        assert(has_order_id(pre_asks, order_id));
                        assert forall|x: int, y: int|
                            0 <= x < self.asks@.len() && 0 <= y < self.bids@.len()
                            implies #[trigger] self.asks@[x].id != #[trigger] self.bids@[y].id by {
                            assert(has_order_id(self.asks@, self.asks@[x].id));
                            let k = choose|k: int|
                                0 <= k < pre_asks.len() && pre_asks[k].id == self.asks@[x].id;
                            assert(pre_asks[k].id != pre_bids[y].id);
                        }
                        lemma_user_frozen_member(pre_asks, index_of_order(pre_asks, order_id), o.user);
                    }
                } else {
                    proof {
                        lemma_index_of_order(pre_bids, order_id, i as int);
                    }
                    o = remove_from_book(
                        &mut self.bids,
                        i,
                        OrderSide::BID,
                        Ghost(self.idx),
                        Ghost(self.amount_prec),
                        Ghost(self.price_prec),
                    );
                    proof {
                        assert(has_order_id(pre_bids, order_id));
                        assert forall|x: int, y: int|
                            0 <= x < self.asks@.len() && 0 <= y < self.bids@.len()
                            implies #[trigger] self.asks@[x].id != #[trigger] self.bids@[y].id by {
                            assert(has_order_id(self.bids@, self.bids@[y].id));
                            let k = choose|k: int|
                                0 <= k < pre_bids.len() && pre_bids[k].id == self.bids@[y].id;
                            assert(pre_asks[x].id != pre_bids[k].id);
                        }
                        lemma_user_frozen_member(pre_bids, index_of_order(pre_bids, order_id), o.user);
                    }
                }
                let asset = if is_ask {
                    self.base
                } else {
                    self.quote
                };
                match balance_manager.unfreeze(o.user, asset, &o.frozen) {
                    Ok(()) => {},
                    Err(e) => {
                        proof {
                            assert(false);
                        }
                        return Err(e);
                    },
                }
                msgs.push(Message::OrderMessage(o, OrderEventType::FINISH));
                Ok(o)
            },
        }
    }


    /// The id of some resting order of `user`, if one exists.
    fn find_user_order(&self, user: u32) -> (r: Option<u64>)
        ensures
            match r {
                Some(id) => (exists|i: int|
                    0 <= i < self.asks@.len() && #[trigger] self.asks@[i].id == id
                        && self.asks@[i].user == user) || (exists|i: int|
                    0 <= i < self.bids@.len() && #[trigger] self.bids@[i].id == id
                        && self.bids@[i].user == user),
                None => user_order_count(self.asks@, user) == 0 && user_order_count(
                    self.bids@,
                    user,
                ) == 0,
            },
    {
        let n = self.asks.len();
        let mut i: usize = 0;
        while i < n
            invariant
                n == self.asks@.len(),
                i <= n,
                forall|j: int| 0 <= j < i ==> #[trigger] self.asks@[j].user != user,
            decreases n - i,
        {
            if self.asks[i].user == user {
                return Some(self.asks[i].id);
            }
            i = i + 1;
        }
        let m = self.bids.len();
        let mut i: usize = 0;
        while i < m
            invariant
                m == self.bids@.len(),
                i <= m,
                forall|j: int| 0 <= j < i ==> #[trigger] self.bids@[j].user != user,
                forall|j: int| 0 <= j < self.asks@.len() ==> #[trigger] self.asks@[j].user != user,
            decreases m - i,
        {
            if self.bids[i].user == user {
                return Some(self.bids[i].id);
            }
            i = i + 1;
        }
        proof {
            lemma_user_count_zero(self.asks@, user);
            lemma_user_count_zero(self.bids@, user);
        }
        None
    }

    /// Cancels every resting order of `user` in this market, returning
    /// each order's frozen amount to its available balance; yields how
    /// many were cancelled.
    #[verifier::rlimit(60)]
    #[verifier::spinoff_prover]
    pub fn cancel_all_for_user(
        &mut self,
        balance_manager: &mut BalanceManager,
        msgs: &mut Vec<Message>,
        user: u32,
    ) -> (r: usize)
        requires
            old(self).wf(old(balance_manager).asset_manager),
            old(balance_manager).wf(),
            forall|u: u32|
                #[trigger] frozen_of(old(balance_manager).entries@, u, old(self).base)
                    >= user_frozen(old(self).asks@, u),
            forall|u: u32|
                #[trigger] frozen_of(old(balance_manager).entries@, u, old(self).quote)
                    >= user_frozen(old(self).bids@, u),
        ensures
            final(balance_manager).asset_manager == old(balance_manager).asset_manager,
            final(self).wf(final(balance_manager).asset_manager),
            final(balance_manager).wf(),
            final(self).name == old(self).name,
            final(self).idx == old(self).idx,
            final(self).base == old(self).base,
            final(self).quote == old(self).quote,
            final(self).amount_prec == old(self).amount_prec,
            final(self).price_prec == old(self).price_prec,
            final(self).fee_prec == old(self).fee_prec,
            final(self).min_amount == old(self).min_amount,
            final(self).price == old(self).price,
            final(self).trade_count == old(self).trade_count,
            r == user_order_count(old(self).asks@, user) + user_order_count(
                old(self).bids@,
                user,
            ),
            user_order_count(final(self).asks@, user) == 0,
            user_order_count(final(self).bids@, user) == 0,
            forall|u2: u32|
                u2 != user ==> #[trigger] user_frozen(final(self).asks@, u2) == user_frozen(
                    old(self).asks@,
                    u2,
                ) && user_frozen(final(self).bids@, u2) == user_frozen(old(self).bids@, u2),
            forall|u2: u32|
                u2 != user ==> #[trigger] user_order_count(final(self).asks@, u2)
                    == user_order_count(old(self).asks@, u2) && user_order_count(
                    final(self).bids@,
                    u2,
                ) == user_order_count(old(self).bids@, u2),
            forall|u2: u32, a2: u32|
                #[trigger] frozen_of(final(balance_manager).entries@, u2, a2) == frozen_of(
                    old(balance_manager).entries@,
                    u2,
                    a2,
                ) - (if u2 == user && a2 == old(self).base {
                    user_frozen(old(self).asks@, user) - user_frozen(final(self).asks@, user)
                } else {
                    0
                }) - (if u2 == user && a2 == old(self).quote {
                    user_frozen(old(self).bids@, user) - user_frozen(final(self).bids@, user)
                } else {
                    0
                }),
            forall|u2: u32, a2: u32|
                #[trigger] avail_of(final(balance_manager).entries@, u2, a2) == avail_of(
                    old(balance_manager).entries@,
                    u2,
                    a2,
                ) + (if u2 == user && a2 == old(self).base {
                    user_frozen(old(self).asks@, user) - user_frozen(final(self).asks@, user)
                } else {
                    0
                }) + (if u2 == user && a2 == old(self).quote {
                    user_frozen(old(self).bids@, user) - user_frozen(final(self).bids@, user)
                } else {
                    0
                }),
            user_frozen(final(self).asks@, user) == 0,
            user_frozen(final(self).bids@, user) == 0,
            final(msgs)@.len() == old(msgs)@.len() + r,
            forall|k: int|
                old(msgs)@.len() <= k < final(msgs)@.len() ==> (#[trigger] final(msgs)@[k])
                    is OrderMessage,
            forall|id2: u64|
                #[trigger] has_order_id(final(self).asks@, id2) ==> has_order_id(
                    old(self).asks@,
                    id2,
                ),
            forall|id2: u64|
                #[trigger] has_order_id(final(self).bids@, id2) ==> has_order_id(
                    old(self).bids@,
                    id2,
                ),
    {
        let ghost orig_self = *self;
        let ghost orig_bm = *balance_manager;
        let ghost orig_msgs = msgs@;
        let mut cancelled: usize = 0;
        proof {
            lemma_user_order_count_bound(self.asks@, user);
            lemma_user_order_count_bound(self.bids@, user);
        }
        loop
            invariant
                orig_self == *old(self),
                orig_bm == *old(balance_manager),
                orig_msgs == old(msgs)@,
                self.wf(balance_manager.asset_manager),
                balance_manager.wf(),
                balance_manager.asset_manager == orig_bm.asset_manager,
                self.name == orig_self.name,
                self.idx == orig_self.idx,
                self.base == orig_self.base,
                self.quote == orig_self.quote,
                self.amount_prec == orig_self.amount_prec,
                self.price_prec == orig_self.price_prec,
                self.fee_prec == orig_self.fee_prec,
                self.min_amount == orig_self.min_amount,
                self.price == orig_self.price,
                self.trade_count == orig_self.trade_count,
                forall|u: u32|
                    #[trigger] frozen_of(balance_manager.entries@, u, self.base) >= user_frozen(
                        self.asks@,
                        u,
                    ),
                forall|u: u32|
                    #[trigger] frozen_of(balance_manager.entries@, u, self.quote) >= user_frozen(
                        self.bids@,
                        u,
                    ),
                cancelled + user_order_count(self.asks@, user) + user_order_count(self.bids@, user)
                    == user_order_count(orig_self.asks@, user) + user_order_count(
                    orig_self.bids@,
                    user,
                ),
                user_order_count(orig_self.asks@, user) + user_order_count(orig_self.bids@, user)
                    <= 1_000_000_000,
                0 <= user_order_count(self.asks@, user),
                0 <= user_order_count(self.bids@, user),
                forall|u2: u32|
                    u2 != user ==> #[trigger] user_frozen(self.asks@, u2) == user_frozen(
                        orig_self.asks@,
                        u2,
                    ) && user_frozen(self.bids@, u2) == user_frozen(orig_self.bids@, u2),
                forall|u2: u32|
                    u2 != user ==> #[trigger] user_order_count(self.asks@, u2) == user_order_count(
                        orig_self.asks@,
                        u2,
                    ) && user_order_count(self.bids@, u2) == user_order_count(
                        orig_self.bids@,
                        u2,
                    ),
                forall|u2: u32, a2: u32|
                    #[trigger] frozen_of(balance_manager.entries@, u2, a2) == frozen_of(
                        orig_bm.entries@,
                        u2,
                        a2,
                    ) - (if u2 == user && a2 == orig_self.base {
                        user_frozen(orig_self.asks@, user) - user_frozen(self.asks@, user)
                    } else {
                        0
                    }) - (if u2 == user && a2 == orig_self.quote {
                        user_frozen(orig_self.bids@, user) - user_frozen(self.bids@, user)
                    } else {
                        0
                    }),
                forall|u2: u32, a2: u32|
                    #[trigger] avail_of(balance_manager.entries@, u2, a2) == avail_of(
                        orig_bm.entries@,
                        u2,
                        a2,
                    ) + (if u2 == user && a2 == orig_self.base {
                        user_frozen(orig_self.asks@, user) - user_frozen(self.asks@, user)
                    } else {
                        0
                    }) + (if u2 == user && a2 == orig_self.quote {
                        user_frozen(orig_self.bids@, user) - user_frozen(self.bids@, user)
                    } else {
                        0
                    }),
                msgs@.len() == orig_msgs.len() + cancelled,
                forall|id2: u64|
                    #[trigger] has_order_id(self.asks@, id2) ==> has_order_id(
                        orig_self.asks@,
                        id2,
                    ),
                forall|id2: u64|
                    #[trigger] has_order_id(self.bids@, id2) ==> has_order_id(
                        orig_self.bids@,
                        id2,
                    ),
                forall|k: int|
                    orig_msgs.len() <= k < msgs@.len() ==> (#[trigger] msgs@[k]) is OrderMessage,
                orig_msgs.len() <= msgs@.len(),
                forall|k: int| 0 <= k < orig_msgs.len() ==> #[trigger] msgs@[k] == orig_msgs[k],
            decreases user_order_count(self.asks@, user) + user_order_count(self.bids@, user),
        {
            let next = self.find_user_order(user);
            match next {
                None => {
                    proof {
                        lemma_user_frozen_of_absent(self.asks@, user);
                        lemma_user_frozen_of_absent(self.bids@, user);
                        assert(msgs@ =~= orig_msgs + msgs@.subrange(
                            orig_msgs.len() as int,
                            msgs@.len() as int,
                        ));
                    }
                    return cancelled;
                },
                Some(id) => {
                    let ghost pre_asks = self.asks@;
                    let ghost pre_bids = self.bids@;
                    proof {
                        lemma_user_order_count_bound(self.asks@, user);
                        lemma_user_order_count_bound(self.bids@, user);
                    }
                    match self.cancel(balance_manager, msgs, id) {
                        Ok(o) => {
                            proof {
                                if o.side == OrderSide::ASK {
                                    if exists|i: int|
                                        0 <= i < pre_asks.len() && #[trigger] pre_asks[i].id == id
                                            && pre_asks[i].user == user {
                                        let i = choose|i: int|
                                            0 <= i < pre_asks.len() && #[trigger] pre_asks[i].id
                                                == id && pre_asks[i].user == user;
                                        lemma_index_of_order(pre_asks, id, i);
                                        assert(o.user == user);
                                    } else {
                                        let j = choose|j: int|
                                            0 <= j < pre_bids.len() && #[trigger] pre_bids[j].id
                                                == id && pre_bids[j].user == user;
                                        let i2 = choose|i2: int|
                                            0 <= i2 < pre_asks.len() && pre_asks[i2].id == id;
                                        assert(pre_asks[i2].id != pre_bids[j].id);
                                        assert(false);
                                    }
                                } else {
                                    if exists|i: int|
                                        0 <= i < pre_bids.len() && #[trigger] pre_bids[i].id == id
                                            && pre_bids[i].user == user {
                                        let i = choose|i: int|
                                            0 <= i < pre_bids.len() && #[trigger] pre_bids[i].id
                                                == id && pre_bids[i].user == user;
                                        lemma_index_of_order(pre_bids, id, i);
                                        assert(o.user == user);
                                    } else {
                                        let j = choose|j: int|
                                            0 <= j < pre_asks.len() && #[trigger] pre_asks[j].id
                                                == id && pre_asks[j].user == user;
                                        assert(has_order_id(pre_asks, id));
                                        assert(false);
                                    }
                                }
                                lemma_user_order_count_bound(self.asks@, user);
                                lemma_user_order_count_bound(self.bids@, user);
                                assert forall|id2: u64|
                                    #[trigger] has_order_id(self.asks@, id2) implies has_order_id(
                                    orig_self.asks@,
                                    id2,
                                ) by {
                                    if o.side == OrderSide::ASK {
                                        let j = choose|j: int|
                                            0 <= j < self.asks@.len() && self.asks@[j].id == id2;
                                        let p = index_of_order(pre_asks, id);
                                        let j2: int = if j < p { j } else { j + 1 };
                                        assert(self.asks@[j] == pre_asks[j2]);
                                        assert(has_order_id(pre_asks, id2));
                                    } else {
                                        assert(has_order_id(pre_asks, id2));
                                    }
                                }
                                assert forall|id2: u64|
                                    #[trigger] has_order_id(self.bids@, id2) implies has_order_id(
                                    orig_self.bids@,
                                    id2,
                                ) by {
                                    if o.side == OrderSide::BID {
                                        let j = choose|j: int|
                                            0 <= j < self.bids@.len() && self.bids@[j].id == id2;
                                        let p = index_of_order(pre_bids, id);
                                        let j2: int = if j < p { j } else { j + 1 };
                                        assert(self.bids@[j] == pre_bids[j2]);
                                        assert(has_order_id(pre_bids, id2));
                                    } else {
                                        assert(has_order_id(pre_bids, id2));
                                    }
                                }
                                assert forall|u2: u32| u2 != user implies #[trigger] user_order_count(
                                    self.asks@,
                                    u2,
                                ) == user_order_count(orig_self.asks@, u2) && user_order_count(
                                    self.bids@,
                                    u2,
                                ) == user_order_count(orig_self.bids@, u2) by {
                                    assert(count_share(o, u2) == 0);
                                    assert(user_order_count(pre_asks, u2) == user_order_count(
                                        orig_self.asks@,
                                        u2,
                                    ));
                                    assert(user_order_count(pre_bids, u2) == user_order_count(
                                        orig_self.bids@,
                                        u2,
                                    ));
                                }
                            }
                            cancelled = cancelled + 1;
                        },
                        Err(_) => {
                            proof {
                                assert(false);
                            }
                            return cancelled;
                        },
                    }
                },
            }
        }
    }



    /// One iteration of the matching loop: reads the best opposite
    /// order and either stops (`false`), cancels a self-trade maker, or
    /// settles one trade (`true`, with the lexicographic measure of
    /// (opposite book length, taker remainder) strictly decreased).
    #[verifier::rlimit(100)]
    #[verifier::spinoff_prover]
    fn match_one(
        &mut self,
        sequencer: &mut Sequencer,
        balance_manager: &mut BalanceManager,
        msgs: &mut Vec<Message>,
        taker: &mut Order,
        post_only_cancelled: &mut bool,
        stopped_short: &mut bool,
        order_input: &OrderInput,
        now: u64,
        disable_self_trade: bool,
        user: u32,
        base: u32,
        quote: u32,
        ap: u32,
        pp: u32,
        fp: u32,
        is_limit: bool,
        is_ask: bool,
        Ghost(old_m): Ghost<Market>,
        Ghost(bm0): Ghost<BalanceManager>,
        Ghost(asks0): Ghost<Seq<Order>>,
        Ghost(bids0): Ghost<Seq<Order>>,
        Ghost(op_log_id): Ghost<u64>,
    ) -> (more: bool)
        requires
            put_matching_inv(
                *old(self),
                *old(balance_manager),
                *old(sequencer),
                *old(taker),
                *order_input,
                old_m,
                bm0,
                asks0,
                bids0,
                op_log_id,
                now,
                *old(post_only_cancelled),
            ),
            *old(post_only_cancelled) == false,
            *old(stopped_short) == false,
            user == old(taker).user,
            base == old(self).base,
            quote == old(self).quote,
            ap == old(self).amount_prec,
            pp == old(self).price_prec,
            fp == old(self).fee_prec,
            is_limit == (old(taker).type_ == OrderType::LIMIT),
            is_ask == (old(taker).side == OrderSide::ASK),
        ensures
            put_matching_inv(
                *final(self),
                *final(balance_manager),
                *final(sequencer),
                *final(taker),
                *order_input,
                old_m,
                bm0,
                asks0,
                bids0,
                op_log_id,
                now,
                *final(post_only_cancelled),
            ),
            forall|k: int| 0 <= k < old(msgs)@.len() ==> #[trigger] final(msgs)@[k] == old(msgs)@[k],
            old(msgs)@.len() <= final(msgs)@.len(),
            forall|k: int|
                old(msgs)@.len() <= k < final(msgs)@.len() && (#[trigger] final(msgs)@[k])
                    is TradeMessage ==> trade_sane(final(msgs)@[k]->TradeMessage_0, old(self).idx),
            more ==> ({
                let ol = if is_ask {
                    old(self).bids@.len()
                } else {
                    old(self).asks@.len()
                };
                let nl = if is_ask {
                    final(self).bids@.len()
                } else {
                    final(self).asks@.len()
                };
                nl < ol || (nl == ol && final(taker).remain.mantissa < old(taker).remain.mantissa)
            }),
            more ==> *final(post_only_cancelled) == false,
            more ==> *final(stopped_short) == false,
            final(taker).id == old(taker).id,
            final(sequencer).trade_id >= old(sequencer).trade_id,
            *final(stopped_short) ==> matching_resources_exhausted(
                *final(self),
                *final(balance_manager),
                *final(sequencer),
                *final(taker),
            ),
            !more ==> ({
                let t = *final(taker);
                ||| t.remain.mantissa == 0
                ||| *final(post_only_cancelled)
                ||| *final(stopped_short)
                ||| (if is_ask {
                    final(self).bids@.len() == 0
                } else {
                    final(self).asks@.len() == 0
                })
                ||| (is_limit && (if is_ask {
                    final(self).bids@.len() > 0 && t.price.mantissa
                        > final(self).bids@[0].price.mantissa
                } else {
                    final(self).asks@.len() > 0 && t.price.mantissa
                        < final(self).asks@[0].price.mantissa
                }))
                ||| (!is_limit && market_taker_starved(
                    *final(self),
                    *final(balance_manager),
                    t,
                    order_input.quote_limit,
                ))
            }),
    {
        if taker.remain.mantissa == 0 {
            return false;
        }
        let opp_len = if is_ask {
            self.bids.len()
        } else {
            self.asks.len()
        };
        if opp_len == 0 {
            return false;
        }
        let maker = if is_ask {
            self.bids[0]
        } else {
            self.asks[0]
        };
        // Price check for limit takers.
        if is_limit {
            let crosses = if is_ask {
                taker.price.mantissa <= maker.price.mantissa
            } else {
                taker.price.mantissa >= maker.price.mantissa
            };
            if !crosses {
                return false;
            }
            // Post-only orders must not take.
            if taker.post_only {
                *post_only_cancelled = true;
                return false;
            }
        }
        // Self-trade protection: cancel the resting maker.
        if maker.user == user && disable_self_trade {
            let ghost pre_book = if is_ask {
                self.bids@
            } else {
                self.asks@
            };
            let removed: Order;
            if is_ask {
                removed = remove_from_book(
                    &mut self.bids,
                    0,
                    OrderSide::BID,
                    Ghost(self.idx),
                    Ghost(ap),
                    Ghost(pp),
                );
            } else {
                removed = remove_from_book(
                    &mut self.asks,
                    0,
                    OrderSide::ASK,
                    Ghost(self.idx),
                    Ghost(ap),
                    Ghost(pp),
                );
            }
            proof {
                lemma_user_frozen_member(pre_book, 0, removed.user);
                if is_ask {
                    lemma_user_frozen_nonneg(self.bids@, removed.user);
                } else {
                    lemma_user_frozen_nonneg(self.asks@, removed.user);
                }
            }
            let masset = if is_ask {
                quote
            } else {
                base
            };
            proof {
                if is_ask {
                    assert(frozen_of(balance_manager.entries@, removed.user, quote) - frozen_of(
                        bm0.entries@,
                        removed.user,
                        quote,
                    ) == user_frozen(pre_book, removed.user) - user_frozen(bids0, removed.user));
                    assert(frozen_of(bm0.entries@, removed.user, quote) >= user_frozen(
                        bids0,
                        removed.user,
                    ));
                    assert(frozen_of(balance_manager.entries@, removed.user, quote)
                        >= removed.frozen.mantissa);
                } else {
                    assert(frozen_of(balance_manager.entries@, removed.user, base) - frozen_of(
                        bm0.entries@,
                        removed.user,
                        base,
                    ) == user_frozen(pre_book, removed.user) - user_frozen(asks0, removed.user));
                    assert(frozen_of(bm0.entries@, removed.user, base) >= user_frozen(
                        asks0,
                        removed.user,
                    ));
                    assert(frozen_of(balance_manager.entries@, removed.user, base)
                        >= removed.frozen.mantissa);
                }
            }
            match balance_manager.unfreeze(removed.user, masset, &removed.frozen) {
                Ok(()) => {},
                Err(_) => {
                    proof {
                        assert(false);
                    }
                    return false;
                },
            }
            msgs.push(Message::OrderMessage(removed, OrderEventType::FINISH));
            proof {
                assert forall|x: int, y: int|
                    0 <= x < self.asks@.len() && 0 <= y < self.bids@.len()
                    implies #[trigger] self.asks@[x].id != #[trigger] self.bids@[y].id by {
                    if is_ask {
                        assert(has_order_id(self.bids@, self.bids@[y].id));
                    } else {
                        assert(has_order_id(self.asks@, self.asks@[x].id));
                    }
                }
            }
            return true;
        }
        // Trade amount: what both orders and the taker's funds allow.
        let mut amt_m: i128 = if taker.remain.mantissa < maker.remain.mantissa {
            taker.remain.mantissa
        } else {
            maker.remain.mantissa
        };
        proof {
            assert(resting_wf(if is_ask { self.bids@[0] } else { self.asks@[0] }, self.idx));
            crate::decimal::lemma_pow10_pos((DECIMAL_SCALE - ap) as nat);
        }
        if !is_limit {
            if is_ask {
                let avail = balance_manager.get(user, BalanceType::AVAILABLE, base);
                let cap = avail.trunc_dp(ap);
                proof {
                    crate::decimal::lemma_round_is_multiple(avail.mantissa as int, ap as nat);
                    crate::decimal::lemma_trunc_le(avail.mantissa as int, ap as nat);
                    crate::decimal::lemma_round_nonneg(avail.mantissa as int, ap as nat);
                }
                if cap.mantissa < amt_m {
                    amt_m = cap.mantissa;
                }
            } else {
                let avail = balance_manager.get(user, BalanceType::AVAILABLE, quote);
                let mut budget_m: i128 = avail.mantissa;
                if order_input.quote_limit.mantissa > 0 {
                    let left: i128 = order_input.quote_limit.mantissa
                        - taker.finished_quote.mantissa;
                    if left < budget_m {
                        budget_m = left;
                    }
                }
                let budget = Decimal { mantissa: budget_m };
                let capo = budget.div_trunc_dp_sat(&maker.price, ap);
                match capo {
                    Some(cap) => {
                        proof {
                            let bm_ = budget_m as int;
                            let pm_ = maker.price.mantissa as int;
                            let dsat = crate::decimal::div_sat_at(bm_, pm_, ap as nat);
                            let q0 = (bm_ * pow10(ap as nat)) / pm_;
                            crate::decimal::lemma_pow10_pos(ap as nat);
                            assert(cap.mantissa as int == dsat);
                            if q0 > pow10((18 + ap) as nat) {
                                crate::decimal::lemma_pow10_value27();
                                crate::decimal::lemma_pow10_divides(
                                    (DECIMAL_SCALE - ap) as nat,
                                    27,
                                );
                            } else {
                                vstd::arithmetic::div_mod::lemma_mod_multiples_basic(
                                    q0,
                                    pow10((DECIMAL_SCALE - ap) as nat),
                                );
                            }
                            assert((cap.mantissa as int) % pow10((DECIMAL_SCALE - ap) as nat)
                                == 0);
                        }
                        if cap.mantissa < amt_m {
                            amt_m = cap.mantissa;
                        }
                        proof {
                            vstd::arithmetic::mul::lemma_mul_inequality(
                                amt_m as int,
                                cap.mantissa as int,
                                maker.price.mantissa as int,
                            );
                            assert(amt_m * maker.price.mantissa <= budget_m * DECIMAL_UNIT);
                            vstd::arithmetic::mul::lemma_mul_inequality(
                                budget_m as int,
                                avail.mantissa as int,
                                DECIMAL_UNIT as int,
                            );
                            assert(amt_m * maker.price.mantissa <= avail.mantissa * DECIMAL_UNIT);
                            if order_input.quote_limit.mantissa > 0 {
                                vstd::arithmetic::mul::lemma_mul_inequality(
                                    budget_m as int,
                                    order_input.quote_limit.mantissa
                                        - taker.finished_quote.mantissa,
                                    DECIMAL_UNIT as int,
                                );
                                assert(amt_m * maker.price.mantissa <= (
                                order_input.quote_limit.mantissa - taker.finished_quote.mantissa)
                                    * DECIMAL_UNIT);
                            }
                        }
                    },
                    None => {
                        proof {
                            assert(false);
                        }
                        return false;
                    },
                }
            }
        }
        if amt_m <= 0 {
            proof {
                assert(resting_wf(if is_ask {
                    self.bids@[0]
                } else {
                    self.asks@[0]
                }, self.idx));
                if is_limit {
                    assert(false);
                }
            }
            return false;
        }
        let amt = Decimal { mantissa: amt_m };
        proof {
            assert((taker.remain.mantissa as int) % pow10((DECIMAL_SCALE - ap) as nat) == 0);
            assert(((if is_ask {
                self.bids@[0]
            } else {
                self.asks@[0]
            }).remain.mantissa as int) % pow10((DECIMAL_SCALE - ap) as nat) == 0);
            assert((amt_m as int) % pow10((DECIMAL_SCALE - ap) as nat) == 0);
            assert(((if is_ask {
                self.bids@[0]
            } else {
                self.asks@[0]
            }).price.mantissa as int) % pow10((DECIMAL_SCALE - pp) as nat) == 0);
            vstd::arithmetic::mul::lemma_mul_nonnegative(
                amt_m as int,
                maker.price.mantissa as int,
            );
            vstd::arithmetic::mul::lemma_mul_upper_bound(
                amt_m as int,
                MAX_INPUT_MANTISSA as int,
                maker.price.mantissa as int,
                MAX_INPUT_MANTISSA as int,
            );
            crate::decimal::lemma_exact_mul(
                amt_m as int,
                maker.price.mantissa as int,
                ap as nat,
                pp as nat,
            );
        }
        let quote_amt = amt.mul_trunc_dp(&maker.price, ap + pp);
        proof {
            assert(quote_amt.mantissa * DECIMAL_UNIT == amt_m * maker.price.mantissa);
            assert(quote_amt.mantissa >= 0) by (nonlinear_arith)
                requires
                    quote_amt.mantissa * DECIMAL_UNIT == amt_m * maker.price.mantissa,
                    amt_m >= 0,
                    maker.price.mantissa >= 0,
                    DECIMAL_UNIT == 1_000_000_000,
            ;
        }
        let ask_rate = if is_ask {
            taker.taker_fee
        } else {
            maker.maker_fee
        };
        let bid_rate = if is_ask {
            maker.maker_fee
        } else {
            taker.taker_fee
        };
        proof {
            assert(fp <= DECIMAL_SCALE);
            assert(quote_amt.mantissa <= 1_000_000_000_000_000_000_000_000_000);
            crate::decimal::lemma_fee_le(quote_amt.mantissa as int, ask_rate.mantissa as int, fp as nat);
            crate::decimal::lemma_fee_le(amt_m as int, bid_rate.mantissa as int, fp as nat);
            vstd::arithmetic::mul::lemma_mul_nonnegative(
                quote_amt.mantissa as int,
                ask_rate.mantissa as int,
            );
            vstd::arithmetic::mul::lemma_mul_upper_bound(
                quote_amt.mantissa as int,
                1_000_000_000_000_000_000_000_000_000,
                ask_rate.mantissa as int,
                DECIMAL_UNIT as int,
            );
            vstd::arithmetic::mul::lemma_mul_nonnegative(
                amt_m as int,
                bid_rate.mantissa as int,
            );
            vstd::arithmetic::mul::lemma_mul_upper_bound(
                amt_m as int,
                MAX_INPUT_MANTISSA as int,
                bid_rate.mantissa as int,
                DECIMAL_UNIT as int,
            );
        }
        let ask_fee = quote_amt.mul_trunc_dp(&ask_rate, fp);
        let bid_fee = amt.mul_trunc_dp(&bid_rate, fp);
        // New bookkeeping values; stop cleanly if any would leave the
        // decimal bound.
        let t_fin_quote: i128 = taker.finished_quote.mantissa + quote_amt.mantissa;
        let t_own_fee: i128 = if is_ask {
            ask_fee.mantissa
        } else {
            bid_fee.mantissa
        };
        let m_own_fee: i128 = if is_ask {
            bid_fee.mantissa
        } else {
            ask_fee.mantissa
        };
        let t_fin_fee: i128 = taker.finished_fee.mantissa + t_own_fee;
        let m_fin_quote: i128 = maker.finished_quote.mantissa + quote_amt.mantissa;
        let m_fin_fee: i128 = maker.finished_fee.mantissa + m_own_fee;
        if t_fin_quote > MAX_MANTISSA || t_fin_fee > MAX_MANTISSA || m_fin_quote > MAX_MANTISSA
            || m_fin_fee > MAX_MANTISSA {
            *stopped_short = true;
            proof {
                assert(quote_amt.mantissa <= 1_000_000_000_000_000_000_000_000_000);
                assert(t_own_fee <= 1_000_000_000_000_000_000_000_000_000);
                assert(m_own_fee <= 1_000_000_000_000_000_000_000_000_000);
                if m_fin_quote > MAX_MANTISSA || m_fin_fee > MAX_MANTISSA {
                    if is_ask {
                        assert(self.bids@[0] == maker);
                    } else {
                        assert(self.asks@[0] == maker);
                    }
                }
            }
            return false;
        }
        // Overflow guards for the two settlement legs.
        let buyer: u32 = if is_ask {
            maker.user
        } else {
            user
        };
        let seller: u32 = if is_ask {
            user
        } else {
            maker.user
        };
        let net_base: i128 = amt_m - bid_fee.mantissa;
        let net_quote: i128 = quote_amt.mantissa - ask_fee.mantissa;
        let b_av = balance_manager.get(buyer, BalanceType::AVAILABLE, base);
        let b_fr = balance_manager.get(buyer, BalanceType::FREEZE, base);
        let alias_base: i128 = if buyer == seller {
            amt_m
        } else {
            0
        };
        if b_av.mantissa + b_fr.mantissa - alias_base + net_base > MAX_MANTISSA {
            *stopped_short = true;
            proof {
                assert(avail_of(balance_manager.entries@, buyer, base) + frozen_of(
                    balance_manager.entries@,
                    buyer,
                    base,
                ) > MAX_MANTISSA - 1_000_000_000_000_000_000_000_000_000);
            }
            return false;
        }
        let s_av = balance_manager.get(seller, BalanceType::AVAILABLE, quote);
        let s_fr = balance_manager.get(seller, BalanceType::FREEZE, quote);
        let alias_quote: i128 = if buyer == seller {
            quote_amt.mantissa
        } else {
            0
        };
        if s_av.mantissa + s_fr.mantissa - alias_quote + net_quote > MAX_MANTISSA {
            *stopped_short = true;
            proof {
                assert(avail_of(balance_manager.entries@, seller, quote) + frozen_of(
                    balance_manager.entries@,
                    seller,
                    quote,
                ) > MAX_MANTISSA - 1_000_000_000_000_000_000_000_000_000);
            }
            return false;
        }
        if sequencer.trade_id == u64::MAX || self.trade_count == u64::MAX {
            *stopped_short = true;
            return false;
        }
        proof {
            if !is_limit && !is_ask {
                assert(quote_amt.mantissa * DECIMAL_UNIT <= avail_of(
                    balance_manager.entries@,
                    user,
                    quote,
                ) * DECIMAL_UNIT);
                if order_input.quote_limit.mantissa > 0 {
                    assert(quote_amt.mantissa * DECIMAL_UNIT <= (order_input.quote_limit.mantissa
                        - taker.finished_quote.mantissa) * DECIMAL_UNIT);
                }
            }
        }
        self.commit_trade(
            sequencer,
            balance_manager,
            msgs,
            taker,
            maker,
            amt,
            quote_amt,
            ask_fee,
            bid_fee,
            now,
            user,
            base,
            quote,
            ap,
            pp,
            fp,
            is_limit,
            is_ask,
            buyer,
            seller,
            Ghost(old_m),
            Ghost(bm0),
            Ghost(asks0),
            Ghost(bids0),
            Ghost(op_log_id),
            order_input,
        );
        true
    }

    /// Settles one crossed pair: issues the trade id, moves base and
    /// quote through the ledger less the fees, rewrites both orders and
    /// the book head, and records the events.
    #[verifier::rlimit(100)]
    #[verifier::spinoff_prover]
    fn commit_trade(
        &mut self,
        sequencer: &mut Sequencer,
        balance_manager: &mut BalanceManager,
        msgs: &mut Vec<Message>,
        taker: &mut Order,
        maker: Order,
        amt: Decimal,
        quote_amt: Decimal,
        ask_fee: Decimal,
        bid_fee: Decimal,
        now: u64,
        user: u32,
        base: u32,
        quote: u32,
        ap: u32,
        pp: u32,
        fp: u32,
        is_limit: bool,
        is_ask: bool,
        buyer: u32,
        seller: u32,
        Ghost(old_m): Ghost<Market>,
        Ghost(bm0): Ghost<BalanceManager>,
        Ghost(asks0): Ghost<Seq<Order>>,
        Ghost(bids0): Ghost<Seq<Order>>,
        Ghost(op_log_id): Ghost<u64>,
        order_input: &OrderInput,
    ) -> (done: bool)
        requires
            put_matching_inv(
                *old(self),
                *old(balance_manager),
                *old(sequencer),
                *old(taker),
                *order_input,
                old_m,
                bm0,
                asks0,
                bids0,
                op_log_id,
                now,
                false,
            ),
            user == old(taker).user,
            base == old(self).base,
            quote == old(self).quote,
            ap == old(self).amount_prec,
            pp == old(self).price_prec,
            fp == old(self).fee_prec,
            is_limit == (old(taker).type_ == OrderType::LIMIT),
            is_ask == (old(taker).side == OrderSide::ASK),
            is_ask ==> old(self).bids@.len() > 0 && maker == old(self).bids@[0],
            !is_ask ==> old(self).asks@.len() > 0 && maker == old(self).asks@[0],
            0 < amt.mantissa <= old(taker).remain.mantissa,
            amt.mantissa <= maker.remain.mantissa,
            (amt.mantissa as int) % pow10((DECIMAL_SCALE - ap) as nat) == 0,
            quote_amt.mantissa * DECIMAL_UNIT == amt.mantissa * maker.price.mantissa,
            0 <= quote_amt.mantissa <= 1_000_000_000_000_000_000_000_000_000,
            0 <= bid_fee.mantissa <= amt.mantissa,
            0 <= ask_fee.mantissa <= quote_amt.mantissa,
            old(taker).finished_quote.mantissa + quote_amt.mantissa <= MAX_MANTISSA,
            old(taker).finished_fee.mantissa + (if is_ask {
                ask_fee.mantissa
            } else {
                bid_fee.mantissa
            }) <= MAX_MANTISSA,
            maker.finished_quote.mantissa + quote_amt.mantissa <= MAX_MANTISSA,
            maker.finished_fee.mantissa + (if is_ask {
                bid_fee.mantissa
            } else {
                ask_fee.mantissa
            }) <= MAX_MANTISSA,
            buyer == (if is_ask {
                maker.user
            } else {
                user
            }),
            seller == (if is_ask {
                user
            } else {
                maker.user
            }),
            avail_of(old(balance_manager).entries@, buyer, base) + frozen_of(
                old(balance_manager).entries@,
                buyer,
                base,
            ) - (if buyer == seller {
                amt.mantissa as int
            } else {
                0
            }) + (amt.mantissa - bid_fee.mantissa) <= MAX_MANTISSA,
            avail_of(old(balance_manager).entries@, seller, quote) + frozen_of(
                old(balance_manager).entries@,
                seller,
                quote,
            ) - (if buyer == seller {
                quote_amt.mantissa as int
            } else {
                0
            }) + (quote_amt.mantissa - ask_fee.mantissa) <= MAX_MANTISSA,
            is_ask && !is_limit ==> amt.mantissa <= avail_of(
                old(balance_manager).entries@,
                user,
                base,
            ),
            !is_ask && !is_limit ==> quote_amt.mantissa <= avail_of(
                old(balance_manager).entries@,
                user,
                quote,
            ),
            !is_ask && !is_limit && order_input.quote_limit.mantissa > 0 ==> old(
                taker,
            ).finished_quote.mantissa + quote_amt.mantissa <= order_input.quote_limit.mantissa,
            old(sequencer).trade_id < u64::MAX,
            old(self).trade_count < u64::MAX,
            is_limit && !is_ask ==> maker.price.mantissa <= old(taker).price.mantissa,
            is_limit && is_ask ==> maker.price.mantissa >= old(taker).price.mantissa,
            !old(taker).post_only,
        ensures
            final(taker).id == old(taker).id,
            final(sequencer).trade_id >= old(sequencer).trade_id,
            put_matching_inv(
                *final(self),
                *final(balance_manager),
                *final(sequencer),
                *final(taker),
                *order_input,
                old_m,
                bm0,
                asks0,
                bids0,
                op_log_id,
                now,
                false,
            ),
            forall|k: int| 0 <= k < old(msgs)@.len() ==> #[trigger] final(msgs)@[k] == old(msgs)@[k],
            old(msgs)@.len() <= final(msgs)@.len(),
            forall|k: int|
                old(msgs)@.len() <= k < final(msgs)@.len() && (#[trigger] final(msgs)@[k])
                    is TradeMessage ==> trade_sane(final(msgs)@[k]->TradeMessage_0, old(self).idx),
            (if is_ask {
                final(self).bids@.len()
            } else {
                final(self).asks@.len()
            }) <= (if is_ask {
                old(self).bids@.len()
            } else {
                old(self).asks@.len()
            }),
            final(taker).remain.mantissa < old(taker).remain.mantissa,
    {
        let amt_m: i128 = amt.mantissa;
        let t_own_fee: i128 = if is_ask {
            ask_fee.mantissa
        } else {
            bid_fee.mantissa
        };
        let m_own_fee: i128 = if is_ask {
            bid_fee.mantissa
        } else {
            ask_fee.mantissa
        };
        let t_fin_quote: i128 = taker.finished_quote.mantissa + quote_amt.mantissa;
        let t_fin_fee: i128 = taker.finished_fee.mantissa + t_own_fee;
        let m_fin_quote: i128 = maker.finished_quote.mantissa + quote_amt.mantissa;
        let m_fin_fee: i128 = maker.finished_fee.mantissa + m_own_fee;
        let taker_frozen_new: Decimal = if is_limit {
            if is_ask {
                Decimal { mantissa: taker.frozen.mantissa - amt_m }
            } else {
                Decimal { mantissa: taker.frozen.mantissa - quote_amt.mantissa }
            }
        } else {
            Decimal { mantissa: 0 }
        };
        let maker_frozen_new: Decimal = if is_ask {
            Decimal { mantissa: maker.frozen.mantissa - quote_amt.mantissa }
        } else {
            Decimal { mantissa: maker.frozen.mantissa - amt_m }
        };
        proof {
            crate::decimal::lemma_pow10_pos((DECIMAL_SCALE - ap) as nat);
            if is_ask {
                assert((old(self).bids@[0].remain.mantissa as int) % pow10(
                    (DECIMAL_SCALE - ap) as nat,
                ) == 0);
            } else {
                assert((old(self).asks@[0].remain.mantissa as int) % pow10(
                    (DECIMAL_SCALE - ap) as nat,
                ) == 0);
            }
            crate::decimal::lemma_mod_diff(
                taker.remain.mantissa as int,
                amt_m as int,
                pow10((DECIMAL_SCALE - ap) as nat),
            );
            crate::decimal::lemma_mod_diff(
                maker.remain.mantissa as int,
                amt_m as int,
                pow10((DECIMAL_SCALE - ap) as nat),
            );
            if is_ask {
                assert(resting_wf(old(self).bids@[0], old(self).idx));
                assert(maker.frozen.mantissa * DECIMAL_UNIT >= maker.remain.mantissa
                    * maker.price.mantissa) by (nonlinear_arith)
                    requires
                        (maker.frozen.mantissa + maker.finished_quote.mantissa) * DECIMAL_UNIT
                            == maker.amount.mantissa * maker.price.mantissa,
                        maker.finished_quote.mantissa * DECIMAL_UNIT
                            <= maker.finished_base.mantissa * maker.price.mantissa,
                        maker.finished_base.mantissa + maker.remain.mantissa
                            == maker.amount.mantissa,
                        maker.price.mantissa >= 0,
                ;
                assert(quote_amt.mantissa * DECIMAL_UNIT <= maker.remain.mantissa
                    * maker.price.mantissa) by (nonlinear_arith)
                    requires
                        quote_amt.mantissa * DECIMAL_UNIT == amt_m * maker.price.mantissa,
                        amt_m <= maker.remain.mantissa,
                        maker.price.mantissa >= 0,
                ;
                assert(quote_amt.mantissa <= maker.frozen.mantissa);
                assert(maker_frozen_new.mantissa >= 0);
                assert((maker_frozen_new.mantissa + m_fin_quote) * DECIMAL_UNIT
                    == maker.amount.mantissa * maker.price.mantissa) by (nonlinear_arith)
                    requires
                        (maker.frozen.mantissa + maker.finished_quote.mantissa) * DECIMAL_UNIT
                            == maker.amount.mantissa * maker.price.mantissa,
                        maker_frozen_new.mantissa == maker.frozen.mantissa - quote_amt.mantissa,
                        m_fin_quote == maker.finished_quote.mantissa + quote_amt.mantissa,
                ;
                assert(m_fin_quote * DECIMAL_UNIT <= (maker.finished_base.mantissa + amt_m)
                    * maker.price.mantissa) by (nonlinear_arith)
                    requires
                        maker.finished_quote.mantissa * DECIMAL_UNIT
                            <= maker.finished_base.mantissa * maker.price.mantissa,
                        quote_amt.mantissa * DECIMAL_UNIT == amt_m * maker.price.mantissa,
                        m_fin_quote == maker.finished_quote.mantissa + quote_amt.mantissa,
                ;
                if is_limit {
                    assert(taker_frozen_new.mantissa == taker.remain.mantissa - amt_m);
                }
            } else {
                assert(resting_wf(old(self).asks@[0], old(self).idx));
                assert(maker.frozen.mantissa == maker.remain.mantissa);
                assert(maker_frozen_new.mantissa == maker.remain.mantissa - amt_m);
                if is_limit {
                    assert(taker.frozen.mantissa * DECIMAL_UNIT >= taker.remain.mantissa
                        * taker.price.mantissa) by (nonlinear_arith)
                        requires
                            (taker.frozen.mantissa + taker.finished_quote.mantissa) * DECIMAL_UNIT
                                == taker.amount.mantissa * taker.price.mantissa,
                            taker.finished_quote.mantissa * DECIMAL_UNIT
                                <= taker.finished_base.mantissa * taker.price.mantissa,
                            taker.finished_base.mantissa + taker.remain.mantissa
                                == taker.amount.mantissa,
                            taker.price.mantissa >= 0,
                    ;
                    assert(quote_amt.mantissa * DECIMAL_UNIT <= taker.remain.mantissa
                        * taker.price.mantissa) by (nonlinear_arith)
                        requires
                            quote_amt.mantissa * DECIMAL_UNIT == amt_m * maker.price.mantissa,
                            amt_m <= taker.remain.mantissa,
                            maker.price.mantissa <= taker.price.mantissa,
                            amt_m >= 0,
                            maker.price.mantissa >= 0,
                            taker.price.mantissa >= 0,
                    ;
                    assert(quote_amt.mantissa <= taker.frozen.mantissa);
                    assert(taker_frozen_new.mantissa >= 0);
                    assert((taker_frozen_new.mantissa + t_fin_quote) * DECIMAL_UNIT
                        == taker.amount.mantissa * taker.price.mantissa) by (nonlinear_arith)
                        requires
                            (taker.frozen.mantissa + taker.finished_quote.mantissa) * DECIMAL_UNIT
                                == taker.amount.mantissa * taker.price.mantissa,
                            taker_frozen_new.mantissa == taker.frozen.mantissa
                                - quote_amt.mantissa,
                            t_fin_quote == taker.finished_quote.mantissa + quote_amt.mantissa,
                    ;
                    assert(t_fin_quote * DECIMAL_UNIT <= (taker.finished_base.mantissa + amt_m)
                        * taker.price.mantissa) by (nonlinear_arith)
                        requires
                            taker.finished_quote.mantissa * DECIMAL_UNIT
                                <= taker.finished_base.mantissa * taker.price.mantissa,
                            quote_amt.mantissa * DECIMAL_UNIT == amt_m * maker.price.mantissa,
                            maker.price.mantissa <= taker.price.mantissa,
                            amt_m >= 0,
                            t_fin_quote == taker.finished_quote.mantissa + quote_amt.mantissa,
                    ;
                }
            }
        }
        let net_base: i128 = amt_m - bid_fee.mantissa;
        let net_quote: i128 = quote_amt.mantissa - ask_fee.mantissa;
        let tid = sequencer.next_trade_id();
        // Settle the base leg: seller hands base, buyer receives it
        // less the bid-side fee.
        let seller_base_type = if is_ask {
            if is_limit {
                BalanceType::FREEZE
            } else {
                BalanceType::AVAILABLE
            }
        } else {
            BalanceType::FREEZE
        };
        let ghost bm_a = *balance_manager;
        let ghost asks_a = self.asks@;
        let ghost bids_a = self.bids@;
        proof {
            assert(forall|j: int|
                0 <= j < self.asks@.len() ==> (#[trigger] self.asks@[j].frozen.mantissa) >= 0);
            assert(forall|j: int|
                0 <= j < self.bids@.len() ==> (#[trigger] self.bids@[j].frozen.mantissa) >= 0);
            lemma_user_frozen_nonneg(self.asks@, user);
            lemma_user_frozen_nonneg(self.bids@, user);
            if is_ask {
                if is_limit {
                    assert(frozen_of(balance_manager.entries@, user, base) - frozen_of(
                        bm0.entries@,
                        user,
                        base,
                    ) == user_frozen(self.asks@, user) - user_frozen(asks0, user)
                        + taker.frozen.mantissa);
                    assert(frozen_of(bm0.entries@, user, base) >= user_frozen(asks0, user));
                    assert(frozen_of(balance_manager.entries@, user, base) >= user_frozen(
                        self.asks@,
                        user,
                    ) + taker.frozen.mantissa);
                    assert(balance_of(balance_manager.entries@, seller, BalanceType::FREEZE, base)
                        >= amt.mantissa);
                } else {
                    assert(balance_of(
                        balance_manager.entries@,
                        seller,
                        BalanceType::AVAILABLE,
                        base,
                    ) >= amt.mantissa);
                }
            } else {
                lemma_user_frozen_member(self.asks@, 0, maker.user);
                assert(frozen_of(balance_manager.entries@, maker.user, base) - frozen_of(
                    bm0.entries@,
                    maker.user,
                    base,
                ) == user_frozen(self.asks@, maker.user) - user_frozen(asks0, maker.user));
                assert(frozen_of(bm0.entries@, maker.user, base) >= user_frozen(
                    asks0,
                    maker.user,
                ));
                assert(frozen_of(balance_manager.entries@, maker.user, base) >= user_frozen(
                    self.asks@,
                    maker.user,
                ));
                assert(balance_of(balance_manager.entries@, seller, BalanceType::FREEZE, base)
                    >= maker.frozen.mantissa >= amt.mantissa);
            }
        }
        match balance_manager.transfer_with_fee(
            seller,
            seller_base_type,
            buyer,
            base,
            &amt,
            &bid_fee,
        ) {
            Ok(()) => {},
            Err(_) => {
                proof {
                    assert(false);
                }
                return false;
            },
        }
        // Settle the quote leg: buyer hands quote, seller receives it
        // less the ask-side fee.
        let buyer_quote_type = if is_ask {
            BalanceType::FREEZE
        } else {
            if is_limit {
                BalanceType::FREEZE
            } else {
                BalanceType::AVAILABLE
            }
        };
        let ghost bm_b = *balance_manager;
        proof {
            assert(balance_of(bm_b.entries@, buyer, BalanceType::FREEZE, quote) == balance_of(
                bm_a.entries@,
                buyer,
                BalanceType::FREEZE,
                quote,
            ));
            assert(balance_of(bm_b.entries@, buyer, BalanceType::AVAILABLE, quote)
                == balance_of(bm_a.entries@, buyer, BalanceType::AVAILABLE, quote));
            assert(balance_of(bm_b.entries@, seller, BalanceType::FREEZE, quote) == balance_of(
                bm_a.entries@,
                seller,
                BalanceType::FREEZE,
                quote,
            ));
            assert(balance_of(bm_b.entries@, seller, BalanceType::AVAILABLE, quote)
                == balance_of(bm_a.entries@, seller, BalanceType::AVAILABLE, quote));
            if is_ask {
                lemma_user_frozen_member(self.bids@, 0, maker.user);
                lemma_user_frozen_nonneg(self.bids@, maker.user);
                assert(frozen_of(bm_a.entries@, maker.user, quote) - frozen_of(
                    bm0.entries@,
                    maker.user,
                    quote,
                ) == user_frozen(self.bids@, maker.user) - user_frozen(bids0, maker.user));
                assert(frozen_of(bm0.entries@, maker.user, quote) >= user_frozen(
                    bids0,
                    maker.user,
                ));
                assert(frozen_of(bm_a.entries@, maker.user, quote) >= user_frozen(
                    self.bids@,
                    maker.user,
                ));
                assert(balance_of(bm_b.entries@, buyer, BalanceType::FREEZE, quote)
                    >= maker.frozen.mantissa >= quote_amt.mantissa);
            } else {
                if is_limit {
                    assert(frozen_of(bm_a.entries@, user, quote) - frozen_of(
                        bm0.entries@,
                        user,
                        quote,
                    ) == user_frozen(self.bids@, user) - user_frozen(bids0, user)
                        + taker.frozen.mantissa);
                    assert(frozen_of(bm0.entries@, user, quote) >= user_frozen(bids0, user));
                    assert(frozen_of(bm_a.entries@, user, quote) >= user_frozen(self.bids@, user)
                        + taker.frozen.mantissa);
                    assert(balance_of(bm_b.entries@, buyer, BalanceType::FREEZE, quote)
                        >= quote_amt.mantissa);
                } else {
                    assert(balance_of(bm_b.entries@, buyer, BalanceType::AVAILABLE, quote)
                        >= quote_amt.mantissa);
                }
            }
        }
        match balance_manager.transfer_with_fee(
            buyer,
            buyer_quote_type,
            seller,
            quote,
            &quote_amt,
            &ask_fee,
        ) {
            Ok(()) => {},
            Err(_) => {
                proof {
                    assert(false);
                }
                return false;
            },
        }
        proof {
            assert forall|u2: u32|
                #[trigger] frozen_of(balance_manager.entries@, u2, base) - frozen_of(
                    bm0.entries@,
                    u2,
                    base,
                ) == user_frozen(self.asks@, u2) - user_frozen(asks0, u2) + (if is_limit && is_ask
                    && u2 == taker.user {
                    taker.frozen.mantissa as int
                } else {
                    0
                }) - (if u2 == seller && seller_base_type == BalanceType::FREEZE {
                    amt.mantissa as int
                } else {
                    0
                }) by {
                assert(balance_of(balance_manager.entries@, u2, BalanceType::FREEZE, base)
                    == balance_of(bm_b.entries@, u2, BalanceType::FREEZE, base));
                assert(balance_of(bm_b.entries@, u2, BalanceType::FREEZE, base) == balance_of(
                    bm_a.entries@,
                    u2,
                    BalanceType::FREEZE,
                    base,
                ) - (if u2 == seller && seller_base_type == BalanceType::FREEZE {
                    amt.mantissa as int
                } else {
                    0
                }));
            }
            assert forall|u2: u32|
                #[trigger] frozen_of(balance_manager.entries@, u2, quote) - frozen_of(
                    bm0.entries@,
                    u2,
                    quote,
                ) == user_frozen(self.bids@, u2) - user_frozen(bids0, u2) + (if is_limit && !is_ask
                    && u2 == taker.user {
                    taker.frozen.mantissa as int
                } else {
                    0
                }) - (if u2 == buyer && buyer_quote_type == BalanceType::FREEZE {
                    quote_amt.mantissa as int
                } else {
                    0
                }) by {
                assert(balance_of(balance_manager.entries@, u2, BalanceType::FREEZE, quote)
                    == balance_of(bm_b.entries@, u2, BalanceType::FREEZE, quote) - (if u2 == buyer
                    && buyer_quote_type == BalanceType::FREEZE {
                    quote_amt.mantissa as int
                } else {
                    0
                }));
                assert(balance_of(bm_b.entries@, u2, BalanceType::FREEZE, quote) == balance_of(
                    bm_a.entries@,
                    u2,
                    BalanceType::FREEZE,
                    quote,
                ));
            }
            assert forall|u2: u32, a2: u32|
                a2 != base && a2 != quote implies #[trigger] frozen_of(
                    balance_manager.entries@,
                    u2,
                    a2,
                ) == frozen_of(bm0.entries@, u2, a2) by {
                assert(balance_of(bm_b.entries@, u2, BalanceType::FREEZE, a2) == balance_of(
                    bm_a.entries@,
                    u2,
                    BalanceType::FREEZE,
                    a2,
                ));
                assert(balance_of(balance_manager.entries@, u2, BalanceType::FREEZE, a2)
                    == balance_of(bm_b.entries@, u2, BalanceType::FREEZE, a2));
                assert(frozen_of(bm_a.entries@, u2, a2) == frozen_of(bm0.entries@, u2, a2));
            }
            assert forall|u2: u32, a2: u32|
                a2 != base && a2 != quote implies #[trigger] avail_of(
                    balance_manager.entries@,
                    u2,
                    a2,
                ) == avail_of(bm0.entries@, u2, a2) by {
                assert(balance_of(bm_b.entries@, u2, BalanceType::AVAILABLE, a2) == balance_of(
                    bm_a.entries@,
                    u2,
                    BalanceType::AVAILABLE,
                    a2,
                ));
                assert(balance_of(balance_manager.entries@, u2, BalanceType::AVAILABLE, a2)
                    == balance_of(bm_b.entries@, u2, BalanceType::AVAILABLE, a2));
                assert(avail_of(bm_a.entries@, u2, a2) == avail_of(bm0.entries@, u2, a2));
            }
        }
        self.apply_trade(
            balance_manager,
            msgs,
            taker,
            maker,
            amt,
            quote_amt,
            ask_fee,
            bid_fee,
            tid,
            now,
            user,
            base,
            quote,
            ap,
            pp,
            fp,
            is_limit,
            is_ask,
            buyer,
            seller,
            seller_base_type,
            buyer_quote_type,
            Ghost(*sequencer),
            Ghost(old_m),
            Ghost(bm0),
            Ghost(asks0),
            Ghost(bids0),
            Ghost(op_log_id),
            order_input,
        );
        true
    }

    /// Applies one settled trade to the books and bookkeeping: rewrites
    /// both orders, removes or updates the maker, returns a filled bid
    /// maker's saved quote, and records the events.
    #[verifier::rlimit(100)]
    #[verifier::spinoff_prover]
    fn apply_trade(
        &mut self,
        balance_manager: &mut BalanceManager,
        msgs: &mut Vec<Message>,
        taker: &mut Order,
        maker: Order,
        amt: Decimal,
        quote_amt: Decimal,
        ask_fee: Decimal,
        bid_fee: Decimal,
        tid: u64,
        now: u64,
        user: u32,
        base: u32,
        quote: u32,
        ap: u32,
        pp: u32,
        fp: u32,
        is_limit: bool,
        is_ask: bool,
        buyer: u32,
        seller: u32,
        seller_base_type: BalanceType,
        buyer_quote_type: BalanceType,
        Ghost(seqv): Ghost<Sequencer>,
        Ghost(old_m): Ghost<Market>,
        Ghost(bm0): Ghost<BalanceManager>,
        Ghost(asks0): Ghost<Seq<Order>>,
        Ghost(bids0): Ghost<Seq<Order>>,
        Ghost(op_log_id): Ghost<u64>,
        order_input: &OrderInput,
    ) -> (done: bool)
        requires
            put_books_inv(
                *old(self),
                seqv,
                *old(taker),
                *order_input,
                old_m,
                asks0,
                bids0,
                op_log_id,
                now,
                false,
            ),
            old(self).wf(old(balance_manager).asset_manager),
            old(balance_manager).wf(),
            old(balance_manager).asset_manager == bm0.asset_manager,
            user == old(taker).user,
            base == old(self).base,
            quote == old(self).quote,
            ap == old(self).amount_prec,
            pp == old(self).price_prec,
            fp == old(self).fee_prec,
            is_limit == (old(taker).type_ == OrderType::LIMIT),
            is_ask == (old(taker).side == OrderSide::ASK),
            is_ask ==> old(self).bids@.len() > 0 && maker == old(self).bids@[0],
            !is_ask ==> old(self).asks@.len() > 0 && maker == old(self).asks@[0],
            0 < amt.mantissa <= old(taker).remain.mantissa,
            amt.mantissa <= maker.remain.mantissa,
            (amt.mantissa as int) % pow10((DECIMAL_SCALE - ap) as nat) == 0,
            quote_amt.mantissa * DECIMAL_UNIT == amt.mantissa * maker.price.mantissa,
            0 <= quote_amt.mantissa <= 1_000_000_000_000_000_000_000_000_000,
            0 <= bid_fee.mantissa <= amt.mantissa,
            0 <= ask_fee.mantissa <= quote_amt.mantissa,
            old(taker).finished_quote.mantissa + quote_amt.mantissa <= MAX_MANTISSA,
            old(taker).finished_fee.mantissa + (if is_ask {
                ask_fee.mantissa
            } else {
                bid_fee.mantissa
            }) <= MAX_MANTISSA,
            maker.finished_quote.mantissa + quote_amt.mantissa <= MAX_MANTISSA,
            maker.finished_fee.mantissa + (if is_ask {
                bid_fee.mantissa
            } else {
                ask_fee.mantissa
            }) <= MAX_MANTISSA,
            buyer == (if is_ask {
                maker.user
            } else {
                user
            }),
            seller == (if is_ask {
                user
            } else {
                maker.user
            }),
            is_limit && !is_ask ==> maker.price.mantissa <= old(taker).price.mantissa,
            is_limit && is_ask ==> maker.price.mantissa >= old(taker).price.mantissa,
            !old(taker).post_only,
            !is_ask && !is_limit && order_input.quote_limit.mantissa > 0 ==> old(
                taker,
            ).finished_quote.mantissa + quote_amt.mantissa <= order_input.quote_limit.mantissa,
            is_ask ==> quote_amt.mantissa <= maker.frozen.mantissa,
            is_ask ==> (maker.finished_quote.mantissa + quote_amt.mantissa) * DECIMAL_UNIT <= (
            maker.finished_base.mantissa + amt.mantissa) * maker.price.mantissa,
            !is_ask && is_limit ==> quote_amt.mantissa <= old(taker).frozen.mantissa,
            !is_ask && is_limit ==> (old(taker).finished_quote.mantissa + quote_amt.mantissa)
                * DECIMAL_UNIT <= (old(taker).finished_base.mantissa + amt.mantissa) * old(
                taker,
            ).price.mantissa,
            forall|u2: u32|
                #[trigger] frozen_of(old(balance_manager).entries@, u2, base) - frozen_of(
                    bm0.entries@,
                    u2,
                    base,
                ) == user_frozen(old(self).asks@, u2) - user_frozen(asks0, u2) + (if is_limit
                    && is_ask && u2 == user {
                    old(taker).frozen.mantissa as int
                } else {
                    0
                }) - (if u2 == seller && seller_base_type == BalanceType::FREEZE {
                    amt.mantissa as int
                } else {
                    0
                }),
            forall|u2: u32|
                #[trigger] frozen_of(old(balance_manager).entries@, u2, quote) - frozen_of(
                    bm0.entries@,
                    u2,
                    quote,
                ) == user_frozen(old(self).bids@, u2) - user_frozen(bids0, u2) + (if is_limit
                    && !is_ask && u2 == user {
                    old(taker).frozen.mantissa as int
                } else {
                    0
                }) - (if u2 == buyer && buyer_quote_type == BalanceType::FREEZE {
                    quote_amt.mantissa as int
                } else {
                    0
                }),
            forall|u2: u32, a2: u32|
                a2 != base && a2 != quote ==> #[trigger] frozen_of(
                    old(balance_manager).entries@,
                    u2,
                    a2,
                ) == frozen_of(bm0.entries@, u2, a2),
            forall|u2: u32, a2: u32|
                a2 != base && a2 != quote ==> #[trigger] avail_of(
                    old(balance_manager).entries@,
                    u2,
                    a2,
                ) == avail_of(bm0.entries@, u2, a2),
            forall|u2: u32|
                #[trigger] frozen_of(bm0.entries@, u2, base) >= user_frozen(asks0, u2),
            forall|u2: u32|
                #[trigger] frozen_of(bm0.entries@, u2, quote) >= user_frozen(bids0, u2),
            old(self).trade_count < u64::MAX,
            seller_base_type == (if is_ask {
                if is_limit {
                    BalanceType::FREEZE
                } else {
                    BalanceType::AVAILABLE
                }
            } else {
                BalanceType::FREEZE
            }),
            buyer_quote_type == (if is_ask {
                BalanceType::FREEZE
            } else {
                if is_limit {
                    BalanceType::FREEZE
                } else {
                    BalanceType::AVAILABLE
                }
            }),
        ensures
            put_matching_inv(
                *final(self),
                *final(balance_manager),
                seqv,
                *final(taker),
                *order_input,
                old_m,
                bm0,
                asks0,
                bids0,
                op_log_id,
                now,
                false,
            ),
            forall|k: int| 0 <= k < old(msgs)@.len() ==> #[trigger] final(msgs)@[k] == old(msgs)@[k],
            old(msgs)@.len() <= final(msgs)@.len(),
            forall|k: int|
                old(msgs)@.len() <= k < final(msgs)@.len() && (#[trigger] final(msgs)@[k])
                    is TradeMessage ==> trade_sane(final(msgs)@[k]->TradeMessage_0, old(self).idx),
            (if is_ask {
                final(self).bids@.len()
            } else {
                final(self).asks@.len()
            }) <= (if is_ask {
                old(self).bids@.len()
            } else {
                old(self).asks@.len()
            }),
            final(taker).remain.mantissa < old(taker).remain.mantissa,
            final(taker).id == old(taker).id,
    {
        let amt_m: i128 = amt.mantissa;
        let t_own_fee: i128 = if is_ask {
            ask_fee.mantissa
        } else {
            bid_fee.mantissa
        };
        let m_own_fee: i128 = if is_ask {
            bid_fee.mantissa
        } else {
            ask_fee.mantissa
        };
        let t_fin_quote: i128 = taker.finished_quote.mantissa + quote_amt.mantissa;
        let t_fin_fee: i128 = taker.finished_fee.mantissa + t_own_fee;
        let m_fin_quote: i128 = maker.finished_quote.mantissa + quote_amt.mantissa;
        let m_fin_fee: i128 = maker.finished_fee.mantissa + m_own_fee;
        let taker_frozen_new: Decimal = if is_limit {
            if is_ask {
                Decimal { mantissa: taker.frozen.mantissa - amt_m }
            } else {
                Decimal { mantissa: taker.frozen.mantissa - quote_amt.mantissa }
            }
        } else {
            Decimal { mantissa: 0 }
        };
        let maker_frozen_new: Decimal = if is_ask {
            Decimal { mantissa: maker.frozen.mantissa - quote_amt.mantissa }
        } else {
            Decimal { mantissa: maker.frozen.mantissa - amt_m }
        };
        proof {
            crate::decimal::lemma_pow10_pos((DECIMAL_SCALE - ap) as nat);
            if is_ask {
                assert((old(self).bids@[0].remain.mantissa as int) % pow10(
                    (DECIMAL_SCALE - ap) as nat,
                ) == 0);
                assert(resting_wf(old(self).bids@[0], old(self).idx));
            } else {
                assert((old(self).asks@[0].remain.mantissa as int) % pow10(
                    (DECIMAL_SCALE - ap) as nat,
                ) == 0);
                assert(resting_wf(old(self).asks@[0], old(self).idx));
            }
            crate::decimal::lemma_mod_diff(
                taker.remain.mantissa as int,
                amt_m as int,
                pow10((DECIMAL_SCALE - ap) as nat),
            );
            crate::decimal::lemma_mod_diff(
                maker.remain.mantissa as int,
                amt_m as int,
                pow10((DECIMAL_SCALE - ap) as nat),
            );
            if is_ask {
                assert((maker_frozen_new.mantissa + m_fin_quote) * DECIMAL_UNIT
                    == maker.amount.mantissa * maker.price.mantissa);
                assert(maker_frozen_new.mantissa >= 0) by (nonlinear_arith)
                    requires
                        (maker_frozen_new.mantissa + m_fin_quote) * DECIMAL_UNIT
                            == maker.amount.mantissa * maker.price.mantissa,
                        m_fin_quote * DECIMAL_UNIT <= (maker.finished_base.mantissa
                            + amt.mantissa) * maker.price.mantissa,
                        maker.finished_base.mantissa + amt.mantissa <= maker.amount.mantissa,
                        maker.price.mantissa >= 0,
                        maker.amount.mantissa >= 0,
                        DECIMAL_UNIT == 1_000_000_000,
                ;
                if is_limit {
                    assert(taker_frozen_new.mantissa == taker.remain.mantissa - amt_m);
                }
            } else {
                assert(maker.frozen.mantissa == maker.remain.mantissa);
                assert(maker_frozen_new.mantissa == maker.remain.mantissa - amt_m);
                if is_limit {
                    assert((taker_frozen_new.mantissa + t_fin_quote) * DECIMAL_UNIT
                        == taker.amount.mantissa * taker.price.mantissa);
                    assert(taker_frozen_new.mantissa >= 0);
                }
            }
        }
        let ghost bm_c = *balance_manager;
        let ghost asks_a = self.asks@;
        let ghost bids_a = self.bids@;
        // Record the trade and the two orders' new states.
        let trade = Trade {
            id: tid,
            timestamp: now,
            market: self.idx,
            price: maker.price,
            amount: amt,
            quote_amount: quote_amt,
            ask_user_id: seller,
            ask_order_id: if is_ask {
                taker.id
            } else {
                maker.id
            },
            ask_fee,
            bid_user_id: buyer,
            bid_order_id: if is_ask {
                maker.id
            } else {
                taker.id
            },
            bid_fee,
            taker_side: taker.side,
        };
        *taker = Order {
            remain: Decimal { mantissa: taker.remain.mantissa - amt_m },
            frozen: taker_frozen_new,
            finished_base: Decimal { mantissa: taker.finished_base.mantissa + amt_m },
            finished_quote: Decimal { mantissa: t_fin_quote },
            finished_fee: Decimal { mantissa: t_fin_fee },
            update_time: now,
            ..*taker
        };
        let new_maker = Order {
            remain: Decimal { mantissa: maker.remain.mantissa - amt_m },
            frozen: maker_frozen_new,
            finished_base: Decimal { mantissa: maker.finished_base.mantissa + amt_m },
            finished_quote: Decimal { mantissa: m_fin_quote },
            finished_fee: Decimal { mantissa: m_fin_fee },
            update_time: now,
            ..maker
        };
        msgs.push(Message::TradeMessage(trade));
        msgs.push(Message::OrderMessage(*taker, OrderEventType::UPDATE));
        msgs.push(Message::OrderMessage(new_maker, OrderEventType::UPDATE));
        let maker_filled = new_maker.remain.mantissa == 0;
        if maker_filled {
            let removed: Order;
            if is_ask {
                removed = remove_from_book(
                    &mut self.bids,
                    0,
                    OrderSide::BID,
                    Ghost(self.idx),
                    Ghost(ap),
                    Ghost(pp),
                );
            } else {
                removed = remove_from_book(
                    &mut self.asks,
                    0,
                    OrderSide::ASK,
                    Ghost(self.idx),
                    Ghost(ap),
                    Ghost(pp),
                );
            }
            if is_ask && maker_frozen_new.mantissa > 0 {
                proof {
                    lemma_user_frozen_member(bids_a, 0, maker.user);
                    assert(user_frozen(bids_a, maker.user) >= maker.frozen.mantissa);
                    assert(frozen_of(bm_c.entries@, maker.user, quote) - frozen_of(
                        bm0.entries@,
                        maker.user,
                        quote,
                    ) == user_frozen(bids_a, maker.user) - user_frozen(bids0, maker.user) + (
                    if is_limit && !is_ask && maker.user == user {
                        old(taker).frozen.mantissa as int
                    } else {
                        0
                    }) - quote_amt.mantissa);
                    assert(frozen_of(bm0.entries@, maker.user, quote) >= user_frozen(
                        bids0,
                        maker.user,
                    ));
                    assert(frozen_of(balance_manager.entries@, maker.user, quote)
                        >= maker_frozen_new.mantissa);
                }
                match balance_manager.unfreeze(maker.user, quote, &maker_frozen_new) {
                    Ok(()) => {},
                    Err(_) => {
                        proof {
                            assert(false);
                        }
                        return false;
                    },
                }
            }
            msgs.push(
                Message::OrderMessage(
                    (Order { frozen: Decimal { mantissa: 0 }, ..new_maker }),
                    OrderEventType::FINISH,
                ),
            );
        } else {
            let ghost pre_book = if is_ask {
                self.bids@
            } else {
                self.asks@
            };
            if is_ask {
                self.bids[0] = new_maker;
            } else {
                self.asks[0] = new_maker;
            }
            proof {
                let t = if is_ask {
                    self.bids@
                } else {
                    self.asks@
                };
                let bside = if is_ask {
                    OrderSide::BID
                } else {
                    OrderSide::ASK
                };
                assert(t == pre_book.update(0, new_maker));
                assert forall|x: int, y: int| 0 <= x < y < t.len() implies side_before(
                    bside,
                    t[x],
                    t[y],
                ) by {
                    assert(side_before(bside, pre_book[x], pre_book[y]));
                }
                assert forall|u2: u32|
                    #[trigger] user_frozen(t, u2) == user_frozen(pre_book, u2) - frozen_share(
                        maker,
                        u2,
                    ) + frozen_share(new_maker, u2) by {
                    lemma_user_sums_update(pre_book, 0, new_maker, u2);
                }
                assert forall|u2: u32|
                    #[trigger] user_order_count(t, u2) == user_order_count(pre_book, u2) by {
                    lemma_user_sums_update(pre_book, 0, new_maker, u2);
                }
                assert forall|id2: u64|
                    #[trigger] has_order_id(t, id2) == has_order_id(pre_book, id2) by {
                    if has_order_id(pre_book, id2) {
                        let j = choose|j: int|
                            0 <= j < pre_book.len() && pre_book[j].id == id2;
                        if j == 0 {
                            assert(t[0].id == id2);
                        } else {
                            assert(t[j].id == id2);
                        }
                    }
                    if has_order_id(t, id2) {
                        let j = choose|j: int| 0 <= j < t.len() && t[j].id == id2;
                        if j == 0 {
                            assert(pre_book[0].id == id2);
                        } else {
                            assert(pre_book[j].id == id2);
                        }
                    }
                }
                assert forall|x: int, y: int| 0 <= x < y < t.len() implies t[x].id
                    != t[y].id by {
                    assert(pre_book[x].id != pre_book[y].id);
                    if x == 0 {
                        assert(t[x].id == pre_book[0].id);
                    }
                }
            }
        }
        self.price = maker.price;
        self.trade_count = self.trade_count + 1;
        let ghost bm_d = *balance_manager;
        let ghost residual: int = if maker_filled && is_ask && maker_frozen_new.mantissa > 0 {
            maker_frozen_new.mantissa as int
        } else {
            0
        };
        proof {
            let asks_c = self.asks@;
            let bids_c = self.bids@;
            assert forall|u2: u32|
                #[trigger] frozen_of(bm_d.entries@, u2, quote) == frozen_of(bm_c.entries@, u2, quote)
                    - (if u2 == maker.user {
                    residual
                } else {
                    0
                }) by {}
            assert forall|u2: u32|
                #[trigger] frozen_of(bm_d.entries@, u2, base) == frozen_of(
                    bm_c.entries@,
                    u2,
                    base,
                ) by {}
            assert forall|u2: u32, a2: u32|
                a2 != base && a2 != quote implies #[trigger] frozen_of(bm_d.entries@, u2, a2)
                    == frozen_of(bm_c.entries@, u2, a2) && #[trigger] avail_of(
                    bm_d.entries@,
                    u2,
                    a2,
                ) == avail_of(bm_c.entries@, u2, a2) by {}
            // Cross-book ids stay distinct: no id was added.
            assert forall|x: int, y: int|
                0 <= x < asks_c.len() && 0 <= y < bids_c.len()
                implies #[trigger] asks_c[x].id != #[trigger] bids_c[y].id by {
                assert(has_order_id(asks_c, asks_c[x].id));
                assert(has_order_id(bids_c, bids_c[y].id));
                assert(has_order_id(asks_a, asks_c[x].id));
                assert(has_order_id(bids_a, bids_c[y].id));
                let xi = choose|xi: int| 0 <= xi < asks_a.len() && asks_a[xi].id == asks_c[x].id;
                let yi = choose|yi: int| 0 <= yi < bids_a.len() && bids_a[yi].id == bids_c[y].id;
                assert(asks_a[xi].id != bids_a[yi].id);
            }
            // The frozen-delta coupling: the ledger and the books moved
            // in step on both assets.
            assert forall|u2: u32|
                #[trigger] frozen_of(bm_d.entries@, u2, base) - frozen_of(bm0.entries@, u2, base)
                    == user_frozen(asks_c, u2) - user_frozen(asks0, u2) + (if is_limit && is_ask
                    && u2 == user {
                    taker.frozen.mantissa as int
                } else {
                    0
                }) by {
                assert(frozen_of(bm_d.entries@, u2, base) == frozen_of(bm_c.entries@, u2, base));
                assert(frozen_of(bm_c.entries@, u2, base) - frozen_of(bm0.entries@, u2, base)
                    == user_frozen(asks_a, u2) - user_frozen(asks0, u2) + (if is_limit && is_ask
                    && u2 == user {
                    old(taker).frozen.mantissa as int
                } else {
                    0
                }) - (if u2 == seller && seller_base_type == BalanceType::FREEZE {
                    amt_m as int
                } else {
                    0
                }));
            }
            assert forall|u2: u32|
                #[trigger] frozen_of(bm_d.entries@, u2, quote) - frozen_of(
                    bm0.entries@,
                    u2,
                    quote,
                ) == user_frozen(bids_c, u2) - user_frozen(bids0, u2) + (if is_limit && !is_ask
                    && u2 == user {
                    taker.frozen.mantissa as int
                } else {
                    0
                }) by {
                assert(frozen_of(bm_d.entries@, u2, quote) == frozen_of(bm_c.entries@, u2, quote)
                    - (if u2 == maker.user {
                    residual
                } else {
                    0
                }));
                assert(frozen_of(bm_c.entries@, u2, quote) - frozen_of(bm0.entries@, u2, quote)
                    == user_frozen(bids_a, u2) - user_frozen(bids0, u2) + (if is_limit && !is_ask
                    && u2 == user {
                    old(taker).frozen.mantissa as int
                } else {
                    0
                }) - (if u2 == buyer && buyer_quote_type == BalanceType::FREEZE {
                    quote_amt.mantissa as int
                } else {
                    0
                }));
            }
            assert forall|u2: u32, a2: u32|
                a2 != base && a2 != quote implies #[trigger] frozen_of(
                    bm_d.entries@,
                    u2,
                    a2,
                ) == frozen_of(bm0.entries@, u2, a2) && #[trigger] avail_of(bm_d.entries@, u2, a2)
                    == avail_of(bm0.entries@, u2, a2) by {
                assert(frozen_of(bm_c.entries@, u2, a2) == frozen_of(bm0.entries@, u2, a2));
                assert(avail_of(bm_c.entries@, u2, a2) == avail_of(bm0.entries@, u2, a2));
            }
            // The counting clauses carry over.
            assert forall|u2: u32|
                #[trigger] user_order_count(asks_c, u2) + user_order_count(bids_c, u2)
                    <= user_order_count(asks0, u2) + user_order_count(bids0, u2) by {
                assert(user_order_count(asks_a, u2) + user_order_count(bids_a, u2)
                    <= user_order_count(asks0, u2) + user_order_count(bids0, u2));
            }
            assert forall|id2: u64|
                #[trigger] has_order_id(asks_c, id2) ==> has_order_id(asks0, id2) by {
                if has_order_id(asks_c, id2) {
                    assert(has_order_id(asks_a, id2));
                }
            }
            assert forall|id2: u64|
                #[trigger] has_order_id(bids_c, id2) ==> has_order_id(bids0, id2) by {
                if has_order_id(bids_c, id2) {
                    assert(has_order_id(bids_a, id2));
                }
            }
            assert forall|i: int|
                0 <= i < asks_c.len() implies (#[trigger] asks_c[i].id) < seqv.order_id by {
                assert(has_order_id(asks_c, asks_c[i].id));
                assert(has_order_id(asks_a, asks_c[i].id));
                let j = choose|j: int| 0 <= j < asks_a.len() && asks_a[j].id == asks_c[i].id;
                assert(asks_a[j].id < seqv.order_id);
            }
            assert forall|i: int|
                0 <= i < bids_c.len() implies (#[trigger] bids_c[i].id) < seqv.order_id by {
                assert(has_order_id(bids_c, bids_c[i].id));
                assert(has_order_id(bids_a, bids_c[i].id));
                let j = choose|j: int| 0 <= j < bids_a.len() && bids_a[j].id == bids_c[i].id;
                assert(bids_a[j].id < seqv.order_id);
            }
            assert(!has_order_id(asks_c, taker.id)) by {
                if has_order_id(asks_c, taker.id) {
                    assert(has_order_id(asks_a, taker.id));
                }
            }
            assert(!has_order_id(bids_c, taker.id)) by {
                if has_order_id(bids_c, taker.id) {
                    assert(has_order_id(bids_a, taker.id));
                }
            }
        }
        proof {
            assert forall|u2: u32, a2: u32|
                a2 != self.base && a2 != self.quote implies #[trigger] frozen_of(
                    balance_manager.entries@,
                    u2,
                    a2,
                ) == frozen_of(bm0.entries@, u2, a2) by {
                assert(frozen_of(bm_d.entries@, u2, a2) == frozen_of(bm0.entries@, u2, a2));
            }
            assert forall|u2: u32, a2: u32|
                a2 != self.base && a2 != self.quote implies #[trigger] avail_of(
                    balance_manager.entries@,
                    u2,
                    a2,
                ) == avail_of(bm0.entries@, u2, a2) by {
                assert(avail_of(bm_d.entries@, u2, a2) == avail_of(bm0.entries@, u2, a2));
            }
            assert(put_matching_inv(
                *self,
                *balance_manager,
                seqv,
                *taker,
                *order_input,
                old_m,
                bm0,
                asks0,
                bids0,
                op_log_id,
                now,
                false,
            ));
        }
        true
    }


    /// Places one order: validates it, freezes a limit order's funds,
    /// crosses the book under price-time priority, settles every trade
    /// through the ledger, and leaves an unfilled limit order resting.
    ///
    /// Errors, each leaving every state untouched:
    /// `InvalidArgument` exactly when the input fails `input_valid`;
    /// `Internal` exactly when no order id is left or the book is full;
    /// `InsufficientBalance` exactly when a limit order's up-front
    /// freeze exceeds the available balance.
    ///
    /// The frozen-balance deltas of the ledger equal the frozen-sum
    /// deltas of the books for every user, so the frozen-equals-open-
    /// orders coupling carries over this call.
    #[verifier::rlimit(100)]
    #[verifier::spinoff_prover]
    pub fn put_order(
        &mut self,
        sequencer: &mut Sequencer,
        balance_manager: &mut BalanceManager,
        msgs: &mut Vec<Message>,
        order_input: &OrderInput,
        now: u64,
        disable_self_trade: bool,
        disable_market_order: bool,
    ) -> (r: Result<Order, EngineError>)
        requires
            old(self).wf(old(balance_manager).asset_manager),
            old(balance_manager).wf(),
            forall|u: u32|
                #[trigger] frozen_of(old(balance_manager).entries@, u, old(self).base)
                    >= user_frozen(old(self).asks@, u),
            forall|u: u32|
                #[trigger] frozen_of(old(balance_manager).entries@, u, old(self).quote)
                    >= user_frozen(old(self).bids@, u),
            ids_below(old(self).asks@, old(sequencer).order_id),
            ids_below(old(self).bids@, old(sequencer).order_id),
        ensures
            final(balance_manager).asset_manager == old(balance_manager).asset_manager,
            final(self).wf(final(balance_manager).asset_manager),
            final(balance_manager).wf(),
            final(self).name == old(self).name,
            final(self).idx == old(self).idx,
            final(self).base == old(self).base,
            final(self).quote == old(self).quote,
            final(self).amount_prec == old(self).amount_prec,
            final(self).price_prec == old(self).price_prec,
            final(self).fee_prec == old(self).fee_prec,
            final(self).min_amount == old(self).min_amount,
            final(sequencer).operation_log_id == old(sequencer).operation_log_id,
            forall|k: int| 0 <= k < old(msgs)@.len() ==> #[trigger] final(msgs)@[k] == old(msgs)@[k],
            old(msgs)@.len() <= final(msgs)@.len(),
            forall|k: int|
                old(msgs)@.len() <= k < final(msgs)@.len() && (#[trigger] final(msgs)@[k])
                    is TradeMessage ==> trade_sane(final(msgs)@[k]->TradeMessage_0, old(self).idx),
            ids_below(final(self).asks@, final(sequencer).order_id),
            ids_below(final(self).bids@, final(sequencer).order_id),
            r == Err::<Order, EngineError>(EngineError::InvalidArgument) <==> !old(
                self,
            ).input_valid(*order_input, disable_market_order),
            old(self).input_valid(*order_input, disable_market_order) ==> (r == Err::<
                Order,
                EngineError,
            >(EngineError::Internal) <==> (old(sequencer).order_id == u64::MAX || old(
                self,
            ).asks@.len() + old(self).bids@.len() >= BOOK_CAP)),
            (old(self).input_valid(*order_input, disable_market_order) && old(sequencer).order_id
                != u64::MAX && old(self).asks@.len() + old(self).bids@.len() < BOOK_CAP) ==> (r
                == Err::<Order, EngineError>(EngineError::InsufficientBalance) <==> (
            order_input.type_ == OrderType::LIMIT && avail_of(
                old(balance_manager).entries@,
                order_input.user_id,
                old(self).frozen_asset(order_input.side),
            ) < old(self).freeze_amount(*order_input))),
            r is Err ==> *final(self) == *old(self) && final(balance_manager).entries@ == old(
                balance_manager,
            ).entries@ && final(msgs)@ == old(msgs)@ && *final(sequencer) == *old(sequencer),
            r is Err ==> (r == Err::<Order, EngineError>(EngineError::InvalidArgument) || r
                == Err::<Order, EngineError>(EngineError::Internal) || r == Err::<
                Order,
                EngineError,
            >(EngineError::InsufficientBalance)),
            r is Ok ==> ({
                let o = r->Ok_0;
                &&& order_wf(o)
                &&& o.id == old(sequencer).order_id
                &&& final(sequencer).order_id == old(sequencer).order_id + 1
                &&& o.user == order_input.user_id
                &&& o.market == old(self).idx
                &&& o.side == order_input.side
                &&& o.type_ == order_input.type_
                &&& o.post_only == order_input.post_only
                &&& o.price == order_input.price
                &&& o.amount.mantissa == old(self).rounded_amount(*order_input)
                &&& o.maker_fee == order_input.maker_fee
                &&& o.taker_fee == order_input.taker_fee
                &&& o.create_time == now
                &&& o.finished_base.mantissa + o.remain.mantissa == o.amount.mantissa
                &&& ((o.type_ == OrderType::LIMIT && o.remain.mantissa > 0 && o.frozen.mantissa
                    > 0) <==> (if order_input.side == OrderSide::ASK {
                    exists|j: int| 0 <= j < final(self).asks@.len() && final(self).asks@[j] == o
                } else {
                    exists|j: int| 0 <= j < final(self).bids@.len() && final(self).bids@[j] == o
                }))
                &&& (o.type_ == OrderType::MARKET ==> (o.remain.mantissa == 0 || (if o.side
                    == OrderSide::ASK {
                    final(self).bids@.len() == 0
                } else {
                    final(self).asks@.len() == 0
                }) || market_taker_starved(
                    *final(self),
                    *final(balance_manager),
                    o,
                    order_input.quote_limit,
                ) || matching_resources_exhausted(
                    *final(self),
                    *final(balance_manager),
                    *final(sequencer),
                    o,
                )))
                &&& (o.type_ == OrderType::LIMIT && !o.post_only && o.remain.mantissa > 0
                    && o.frozen.mantissa == 0 ==> matching_resources_exhausted(
                    *final(self),
                    *final(balance_manager),
                    *final(sequencer),
                    o,
                ))
                &&& (o.type_ == OrderType::LIMIT && o.post_only && o.remain.mantissa > 0
                    && o.frozen.mantissa == 0 ==> (matching_resources_exhausted(
                    *final(self),
                    *final(balance_manager),
                    *final(sequencer),
                    o,
                ) || (if order_input.side == OrderSide::ASK {
                    old(self).bids@.len() > 0 && order_input.price.mantissa
                        <= old(self).bids@[0].price.mantissa && final(self).bids@ == old(
                        self,
                    ).bids@
                } else {
                    old(self).asks@.len() > 0 && order_input.price.mantissa
                        >= old(self).asks@[0].price.mantissa && final(self).asks@ == old(
                        self,
                    ).asks@
                })))
            }),
            final(sequencer).trade_id >= old(sequencer).trade_id,
            forall|u: u32|
                #[trigger] frozen_of(final(balance_manager).entries@, u, old(self).base)
                    - frozen_of(old(balance_manager).entries@, u, old(self).base) == user_frozen(
                    final(self).asks@,
                    u,
                ) - user_frozen(old(self).asks@, u),
            forall|u: u32|
                #[trigger] frozen_of(final(balance_manager).entries@, u, old(self).quote)
                    - frozen_of(old(balance_manager).entries@, u, old(self).quote) == user_frozen(
                    final(self).bids@,
                    u,
                ) - user_frozen(old(self).bids@, u),
            forall|u2: u32, a2: u32|
                a2 != old(self).base && a2 != old(self).quote ==> #[trigger] frozen_of(
                    final(balance_manager).entries@,
                    u2,
                    a2,
                ) == frozen_of(old(balance_manager).entries@, u2, a2),
            forall|u2: u32, a2: u32|
                a2 != old(self).base && a2 != old(self).quote ==> #[trigger] avail_of(
                    final(balance_manager).entries@,
                    u2,
                    a2,
                ) == avail_of(old(balance_manager).entries@, u2, a2),
            forall|u: u32|
                #[trigger] user_order_count(final(self).asks@, u) + user_order_count(
                    final(self).bids@,
                    u,
                ) <= user_order_count(old(self).asks@, u) + user_order_count(old(self).bids@, u)
                    + (if u == order_input.user_id {
                    1int
                } else {
                    0int
                }),
    {
        // Validation.
        let ap = self.amount_prec;
        let pp = self.price_prec;
        if order_input.amount.mantissa < 0 || order_input.amount.mantissa > MAX_INPUT_MANTISSA {
            return Err(EngineError::InvalidArgument);
        }
        let amount = order_input.amount.round_dp(ap);
        proof {
            crate::decimal::lemma_round_nonneg(order_input.amount.mantissa as int, ap as nat);
            lemma_pow10_values();
            assert(ap <= DECIMAL_SCALE);
            crate::decimal::lemma_pow10_divides((DECIMAL_SCALE - ap) as nat, 18);
            crate::decimal::lemma_round_le_bound(
                order_input.amount.mantissa as int,
                ap as nat,
                MAX_INPUT_MANTISSA as int,
            );
        }
        if amount.mantissa < self.min_amount.mantissa || amount.mantissa <= 0 {
            return Err(EngineError::InvalidArgument);
        }
        if order_input.taker_fee.mantissa < 0 || order_input.taker_fee.mantissa >= DECIMAL_UNIT
            || order_input.maker_fee.mantissa < 0 || order_input.maker_fee.mantissa
            >= DECIMAL_UNIT {
            return Err(EngineError::InvalidArgument);
        }
        match order_input.type_ {
            OrderType::MARKET => {
                if disable_market_order || order_input.post_only || order_input.price.mantissa != 0
                    || order_input.quote_limit.mantissa < 0 || order_input.quote_limit.mantissa
                    > MAX_INPUT_MANTISSA {
                    return Err(EngineError::InvalidArgument);
                }
            },
            OrderType::LIMIT => {
                if order_input.price.mantissa <= 0 || order_input.price.mantissa
                    > MAX_INPUT_MANTISSA || !order_input.price.has_prec(pp) {
                    return Err(EngineError::InvalidArgument);
                }
            },
        }
        // Resources.
        if sequencer.order_id == u64::MAX || self.asks.len() >= BOOK_CAP - self.bids.len() {
            return Err(EngineError::Internal);
        }
        // Up-front freeze for limit orders.
        let is_limit = match order_input.type_ {
            OrderType::LIMIT => true,
            OrderType::MARKET => false,
        };
        let is_ask = match order_input.side {
            OrderSide::ASK => true,
            OrderSide::BID => false,
        };
        let user = order_input.user_id;
        proof {
            vstd::arithmetic::mul::lemma_mul_nonnegative(
                amount.mantissa as int,
                order_input.price.mantissa as int,
            );
            vstd::arithmetic::mul::lemma_mul_upper_bound(
                amount.mantissa as int,
                MAX_INPUT_MANTISSA as int,
                order_input.price.mantissa as int,
                MAX_INPUT_MANTISSA as int,
            );
            crate::decimal::lemma_round_is_multiple(order_input.amount.mantissa as int, ap as nat);
            if is_limit && !is_ask {
                crate::decimal::lemma_exact_mul(
                    amount.mantissa as int,
                    order_input.price.mantissa as int,
                    ap as nat,
                    pp as nat,
                );
            }
        }
        let freeze_amt: Decimal = if is_ask {
            amount
        } else {
            amount.mul_trunc_dp(&order_input.price, ap + pp)
        };
        let fasset = if is_ask {
            self.base
        } else {
            self.quote
        };
        let ghost bm0 = *balance_manager;
        let ghost asks0 = self.asks@;
        let ghost bids0 = self.bids@;
        if is_limit {
            match balance_manager.freeze(user, fasset, &freeze_amt) {
                Ok(()) => {},
                Err(e) => {
                    return Err(e);
                },
            }
        }
        let id = sequencer.next_order_id();
        let mut taker = Order {
            id,
            market: self.idx,
            type_: order_input.type_,
            side: order_input.side,
            user,
            post_only: order_input.post_only,
            price: order_input.price,
            amount,
            maker_fee: order_input.maker_fee,
            taker_fee: order_input.taker_fee,
            create_time: now,
            remain: amount,
            frozen: if is_limit {
                freeze_amt
            } else {
                Decimal { mantissa: 0 }
            },
            finished_base: Decimal { mantissa: 0 },
            finished_quote: Decimal { mantissa: 0 },
            finished_fee: Decimal { mantissa: 0 },
            update_time: now,
        };
        msgs.push(Message::OrderMessage(taker, OrderEventType::PUT));
        let mut post_only_cancelled = false;
        let mut stopped_short = false;
        proof {
            if !is_ask && is_limit {
                assert((taker.frozen.mantissa + taker.finished_quote.mantissa) * DECIMAL_UNIT
                    == taker.amount.mantissa * taker.price.mantissa);
            }
        }
        let ghost msgs0 = msgs@;
        let base = self.base;
        let quote = self.quote;
        let fp = self.fee_prec;
        loop
            invariant_except_break
                !post_only_cancelled,
                !stopped_short,
            invariant
                stopped_short ==> matching_resources_exhausted(
                    *self,
                    *balance_manager,
                    *sequencer,
                    taker,
                ),
                old(sequencer).trade_id <= sequencer.trade_id,
                bm0 == *old(balance_manager),
                asks0 == old(self).asks@,
                bids0 == old(self).bids@,
                put_matching_inv(
                    *self,
                    *balance_manager,
                    *sequencer,
                    taker,
                    *order_input,
                    *old(self),
                    bm0,
                    asks0,
                    bids0,
                    old(sequencer).operation_log_id,
                    now,
                    post_only_cancelled,
                ),
                is_limit == (taker.type_ == OrderType::LIMIT),
                is_ask == (taker.side == OrderSide::ASK),
                user == taker.user,
                base == self.base,
                quote == self.quote,
                ap == self.amount_prec,
                pp == self.price_prec,
                fp == self.fee_prec,
                id == taker.id,
                forall|k: int| 0 <= k < msgs0.len() ==> #[trigger] msgs@[k] == msgs0[k],
                msgs0.len() <= msgs@.len(),
                forall|k: int| 0 <= k < old(msgs)@.len() ==> #[trigger] msgs0[k] == old(msgs)@[k],
                old(msgs)@.len() < msgs0.len(),
                forall|k: int|
                    old(msgs)@.len() <= k < msgs@.len() && (#[trigger] msgs@[k]) is TradeMessage
                        ==> trade_sane(msgs@[k]->TradeMessage_0, old(self).idx),
            ensures
                taker.remain.mantissa == 0 || post_only_cancelled || stopped_short || (if is_ask {
                    self.bids@.len() == 0
                } else {
                    self.asks@.len() == 0
                }) || (is_limit && (if is_ask {
                    self.bids@.len() > 0 && taker.price.mantissa > self.bids@[0].price.mantissa
                } else {
                    self.asks@.len() > 0 && taker.price.mantissa < self.asks@[0].price.mantissa
                })) || (!is_limit && market_taker_starved(
                    *self,
                    *balance_manager,
                    taker,
                    order_input.quote_limit,
                )),
            decreases (if is_ask {
                self.bids@.len()
            } else {
                self.asks@.len()
            }), taker.remain.mantissa,
        {
            let more = self.match_one(
                sequencer,
                balance_manager,
                msgs,
                &mut taker,
                &mut post_only_cancelled,
                &mut stopped_short,
                order_input,
                now,
                disable_self_trade,
                user,
                base,
                quote,
                ap,
                pp,
                fp,
                is_limit,
                is_ask,
                Ghost(*old(self)),
                Ghost(bm0),
                Ghost(asks0),
                Ghost(bids0),
                Ghost(old(sequencer).operation_log_id),
            );
            if !more {
                proof {
                    assert(taker.remain.mantissa == 0 || post_only_cancelled || stopped_short || (
                    if is_ask {
                        self.bids@.len() == 0
                    } else {
                        self.asks@.len() == 0
                    }) || (is_limit && (if is_ask {
                        self.bids@.len() > 0 && taker.price.mantissa
                            > self.bids@[0].price.mantissa
                    } else {
                        self.asks@.len() > 0 && taker.price.mantissa
                            < self.asks@[0].price.mantissa
                    })) || (!is_limit && market_taker_starved(
                        *self,
                        *balance_manager,
                        taker,
                        order_input.quote_limit,
                    )));
                }
                break ;
            }
        }
        // Epilogue: rest, finish, or cancel the taker.
        if post_only_cancelled || (is_limit && stopped_short && taker.remain.mantissa > 0) {
            let ghost bm_pre = *balance_manager;
            proof {
                assert(forall|j: int|
                    0 <= j < self.asks@.len() ==> (#[trigger] self.asks@[j].frozen.mantissa) >= 0);
                assert(forall|j: int|
                    0 <= j < self.bids@.len() ==> (#[trigger] self.bids@[j].frozen.mantissa) >= 0);
                lemma_user_frozen_nonneg(self.asks@, user);
                lemma_user_frozen_nonneg(self.bids@, user);
                if is_ask {
                    assert(frozen_of(balance_manager.entries@, user, base) - frozen_of(
                        bm0.entries@,
                        user,
                        base,
                    ) == user_frozen(self.asks@, user) - user_frozen(asks0, user)
                        + taker.frozen.mantissa);
                    assert(frozen_of(bm0.entries@, user, base) >= user_frozen(asks0, user));
                    assert(frozen_of(balance_manager.entries@, user, base)
                        >= taker.frozen.mantissa);
                } else {
                    assert(frozen_of(balance_manager.entries@, user, quote) - frozen_of(
                        bm0.entries@,
                        user,
                        quote,
                    ) == user_frozen(self.bids@, user) - user_frozen(bids0, user)
                        + taker.frozen.mantissa);
                    assert(frozen_of(bm0.entries@, user, quote) >= user_frozen(bids0, user));
                    assert(frozen_of(balance_manager.entries@, user, quote)
                        >= taker.frozen.mantissa);
                }
            }
            match balance_manager.unfreeze(user, fasset, &taker.frozen) {
                Ok(()) => {},
                Err(e) => {
                    proof {
                        assert(false);
                    }
                    return Err(e);
                },
            }
            proof {
                assert forall|u2: u32, a2: u32|
                    a2 != base && a2 != quote implies #[trigger] frozen_of(
                        balance_manager.entries@,
                        u2,
                        a2,
                    ) == frozen_of(bm0.entries@, u2, a2) && avail_of(
                        balance_manager.entries@,
                        u2,
                        a2,
                    ) == avail_of(bm0.entries@, u2, a2) by {
                    assert(frozen_of(balance_manager.entries@, u2, a2) == frozen_of(
                        bm_pre.entries@,
                        u2,
                        a2,
                    ));
                    assert(avail_of(balance_manager.entries@, u2, a2) == avail_of(
                        bm_pre.entries@,
                        u2,
                        a2,
                    ));
                    assert(frozen_of(bm_pre.entries@, u2, a2) == frozen_of(bm0.entries@, u2, a2));
                    assert(avail_of(bm_pre.entries@, u2, a2) == avail_of(bm0.entries@, u2, a2));
                }
            }
            let cancelled = Order { frozen: Decimal { mantissa: 0 }, ..taker };
            proof {
                if stopped_short {
                    assert(matching_resources_exhausted(
                        *self,
                        *balance_manager,
                        *sequencer,
                        cancelled,
                    )) by {
                        assert forall|u2: u32, a2: u32|
                            avail_of(balance_manager.entries@, u2, a2) + frozen_of(
                                balance_manager.entries@,
                                u2,
                                a2,
                            ) == avail_of(bm_pre.entries@, u2, a2) + frozen_of(
                                bm_pre.entries@,
                                u2,
                                a2,
                            ) by {}
                    }
                }
                assert forall|j: int|
                    0 <= j < self.asks@.len() implies #[trigger] self.asks@[j] != cancelled by {
                    if self.asks@[j] == cancelled {
                        assert(has_order_id(self.asks@, taker.id));
                    }
                }
                assert forall|j: int|
                    0 <= j < self.bids@.len() implies #[trigger] self.bids@[j] != cancelled by {
                    if self.bids@[j] == cancelled {
                        assert(has_order_id(self.bids@, taker.id));
                    }
                }
            }
            msgs.push(Message::OrderMessage(cancelled, OrderEventType::FINISH));
            return Ok(cancelled);
        }
        if is_limit && taker.remain.mantissa > 0 {
            proof {
                lemma_pow10_values();
                // The loop stopped because the taker no longer crosses
                // the best opposite order (or that side is empty).
                if is_ask {
                    assert(self.bids@.len() == 0 || taker.price.mantissa
                        > self.bids@[0].price.mantissa);
                } else {
                    assert(self.asks@.len() == 0 || taker.price.mantissa
                        < self.asks@[0].price.mantissa);
                }
            }
            let ghost pre_ins = if is_ask {
                self.asks@
            } else {
                self.bids@
            };
            if is_ask {
                insert_into_book(
                    &mut self.asks,
                    taker,
                    OrderSide::ASK,
                    Ghost(self.idx),
                    Ghost(ap),
                    Ghost(pp),
                );
            } else {
                insert_into_book(
                    &mut self.bids,
                    taker,
                    OrderSide::BID,
                    Ghost(self.idx),
                    Ghost(ap),
                    Ghost(pp),
                );
            }
            proof {
                let ghost fasks = self.asks@;
                let ghost fbids = self.bids@;
                assert forall|x: int, y: int|
                    0 <= x < fasks.len() && 0 <= y < fbids.len()
                    implies #[trigger] fasks[x].id != #[trigger] fbids[y].id by {
                    if is_ask {
                        assert(has_order_id(fasks, fasks[x].id));
                        if fasks[x].id == taker.id {
                            assert(!has_order_id(fbids, taker.id));
                            assert(fbids[y].id != taker.id);
                        } else {
                            assert(has_order_id(asks0, fasks[x].id));
                            let xi = choose|xi: int|
                                0 <= xi < asks0.len() && asks0[xi].id == fasks[x].id;
                            assert(has_order_id(fbids, fbids[y].id));
                            assert(has_order_id(bids0, fbids[y].id));
                            let yi = choose|yi: int|
                                0 <= yi < bids0.len() && bids0[yi].id == fbids[y].id;
                            assert(asks0[xi].id != bids0[yi].id);
                        }
                    } else {
                        assert(has_order_id(fbids, fbids[y].id));
                        if fbids[y].id == taker.id {
                            assert(!has_order_id(fasks, taker.id));
                            assert(fasks[x].id != taker.id);
                        } else {
                            assert(has_order_id(bids0, fbids[y].id));
                            let yi = choose|yi: int|
                                0 <= yi < bids0.len() && bids0[yi].id == fbids[y].id;
                            assert(has_order_id(fasks, fasks[x].id));
                            assert(has_order_id(asks0, fasks[x].id));
                            let xi = choose|xi: int|
                                0 <= xi < asks0.len() && asks0[xi].id == fasks[x].id;
                            assert(asks0[xi].id != bids0[yi].id);
                        }
                    }
                }
                assert forall|i: int|
                    0 <= i < fasks.len() implies (#[trigger] fasks[i].id) < sequencer.order_id by {
                    assert(has_order_id(fasks, fasks[i].id));
                }
                assert forall|i: int|
                    0 <= i < fbids.len() implies (#[trigger] fbids[i].id) < sequencer.order_id by {
                    assert(has_order_id(fbids, fbids[i].id));
                }
                if is_ask {
                    let p = choose|p: int|
                        0 <= p <= pre_ins.len() && fasks == pre_ins.insert(p, taker);
                    assert(fasks[p] == taker);
                    assert forall|x: int, y: int|
                        0 <= x < fasks.len() && 0 <= y < fbids.len() implies (
                    #[trigger] fasks[x].price.mantissa) > (#[trigger] fbids[y].price.mantissa) by {
                        if x == p {
                            assert(fasks[x] == taker);
                            assert(side_before(OrderSide::BID, fbids[0], fbids[y]) || y == 0);
                        } else {
                            let x2: int = if x < p {
                                x
                            } else {
                                x - 1
                            };
                            assert(fasks[x] == pre_ins[x2]);
                            assert(books_uncrossed(pre_ins, fbids));
                        }
                    }
                } else {
                    let p = choose|p: int|
                        0 <= p <= pre_ins.len() && fbids == pre_ins.insert(p, taker);
                    assert(fbids[p] == taker);
                    assert forall|x: int, y: int|
                        0 <= x < fasks.len() && 0 <= y < fbids.len() implies (
                    #[trigger] fasks[x].price.mantissa) > (#[trigger] fbids[y].price.mantissa) by {
                        if y == p {
                            assert(fbids[y] == taker);
                            assert(side_before(OrderSide::ASK, fasks[0], fasks[x]) || x == 0);
                        } else {
                            let y2: int = if y < p {
                                y
                            } else {
                                y - 1
                            };
                            assert(fbids[y] == pre_ins[y2]);
                            assert(books_uncrossed(fasks, pre_ins));
                        }
                    }
                }
            }
            proof {
                if !is_ask {
                    assert(taker.frozen.mantissa > 0) by (nonlinear_arith)
                        requires
                            (taker.frozen.mantissa + taker.finished_quote.mantissa) * DECIMAL_UNIT
                                == taker.amount.mantissa * taker.price.mantissa,
                            taker.finished_quote.mantissa * DECIMAL_UNIT
                                <= taker.finished_base.mantissa * taker.price.mantissa,
                            taker.finished_base.mantissa + taker.remain.mantissa
                                == taker.amount.mantissa,
                            taker.remain.mantissa > 0,
                            taker.price.mantissa > 0,
                            DECIMAL_UNIT == 1_000_000_000,
                    ;
                }
            }
            return Ok(taker);
        }
        if is_limit && taker.frozen.mantissa > 0 {
            // A fully filled bid that traded below its limit price still
            // holds the saved quote; return it.
            let ghost bm_pre = *balance_manager;
            proof {
                assert(forall|j: int|
                    0 <= j < self.bids@.len() ==> (#[trigger] self.bids@[j].frozen.mantissa) >= 0);
                lemma_user_frozen_nonneg(self.bids@, user);
                assert(!is_ask);
                assert(frozen_of(balance_manager.entries@, user, quote) - frozen_of(
                    bm0.entries@,
                    user,
                    quote,
                ) == user_frozen(self.bids@, user) - user_frozen(bids0, user)
                    + taker.frozen.mantissa);
                assert(frozen_of(bm0.entries@, user, quote) >= user_frozen(bids0, user));
                assert(frozen_of(balance_manager.entries@, user, quote) >= taker.frozen.mantissa);
            }
            match balance_manager.unfreeze(user, fasset, &taker.frozen) {
                Ok(()) => {},
                Err(e) => {
                    proof {
                        assert(false);
                    }
                    return Err(e);
                },
            }
            proof {
                assert forall|u2: u32, a2: u32|
                    a2 != base && a2 != quote implies #[trigger] frozen_of(
                        balance_manager.entries@,
                        u2,
                        a2,
                    ) == frozen_of(bm0.entries@, u2, a2) && avail_of(
                        balance_manager.entries@,
                        u2,
                        a2,
                    ) == avail_of(bm0.entries@, u2, a2) by {
                    assert(frozen_of(balance_manager.entries@, u2, a2) == frozen_of(
                        bm_pre.entries@,
                        u2,
                        a2,
                    ));
                    assert(avail_of(balance_manager.entries@, u2, a2) == avail_of(
                        bm_pre.entries@,
                        u2,
                        a2,
                    ));
                    assert(frozen_of(bm_pre.entries@, u2, a2) == frozen_of(bm0.entries@, u2, a2));
                    assert(avail_of(bm_pre.entries@, u2, a2) == avail_of(bm0.entries@, u2, a2));
                }
            }
            taker = Order { frozen: Decimal { mantissa: 0 }, ..taker };
        }
        proof {
            assert forall|u2: u32, a2: u32|
                a2 != old(self).base && a2 != old(self).quote implies #[trigger] frozen_of(
                    balance_manager.entries@,
                    u2,
                    a2,
                ) == frozen_of(old(balance_manager).entries@, u2, a2) && avail_of(
                    balance_manager.entries@,
                    u2,
                    a2,
                ) == avail_of(old(balance_manager).entries@, u2, a2) by {
                assert(frozen_of(balance_manager.entries@, u2, a2) == frozen_of(
                    bm0.entries@,
                    u2,
                    a2,
                ));
                assert(avail_of(balance_manager.entries@, u2, a2) == avail_of(
                    bm0.entries@,
                    u2,
                    a2,
                ));
            }
        }
        proof {
            assert forall|j: int|
                0 <= j < self.asks@.len() implies #[trigger] self.asks@[j] != taker by {
                if self.asks@[j] == taker {
                    assert(has_order_id(self.asks@, taker.id));
                }
            }
            assert forall|j: int|
                0 <= j < self.bids@.len() implies #[trigger] self.bids@[j] != taker by {
                if self.bids@[j] == taker {
                    assert(has_order_id(self.bids@, taker.id));
                }
            }
        }
        msgs.push(Message::OrderMessage(taker, OrderEventType::FINISH));
        Ok(taker)
    }


    /// Aggregates up to `limit` price levels per side.  With a positive
    /// `interval`, ask prices are bucketed up to the next multiple and
    /// bid prices down to the previous one; amounts per bucket are
    /// summed.
    pub fn depth(&self, limit: usize, interval: &Decimal) -> (r: MarketDepth)
        requires
            self.asks@.len() < usize::MAX,
            self.bids@.len() < usize::MAX,
            forall|i: int|
                0 <= i < self.asks@.len() ==> 0 <= (#[trigger] self.asks@[i]).remain.mantissa
                    <= MAX_MANTISSA && 0 <= self.asks@[i].price.mantissa <= MAX_MANTISSA,
            forall|i: int|
                0 <= i < self.bids@.len() ==> 0 <= (#[trigger] self.bids@[i]).remain.mantissa
                    <= MAX_MANTISSA && 0 <= self.bids@[i].price.mantissa <= MAX_MANTISSA,
            0 <= interval.mantissa <= MAX_MANTISSA,
        ensures
            r.asks@ == ({
                let full = depth_levels(self.asks@, interval.mantissa as int, true);
                if full.len() <= limit {
                    full
                } else {
                    full.take(limit as int)
                }
            }),
            r.bids@ == ({
                let full = depth_levels(self.bids@, interval.mantissa as int, false);
                if full.len() <= limit {
                    full
                } else {
                    full.take(limit as int)
                }
            }),
            r.asks@.len() <= limit,
            r.bids@.len() <= limit,
    {
        let asks = depth_side(&self.asks, limit, interval, true);
        let bids = depth_side(&self.bids, limit, interval, false);
        MarketDepth { asks, bids }
    }

    /// Counts and open amounts of both sides.
    pub fn status(&self) -> (r: MarketStatus)
        requires
            forall|i: int|
                0 <= i < self.asks@.len() ==> 0 <= (#[trigger] self.asks@[i]).remain.mantissa
                    <= MAX_MANTISSA,
            forall|i: int|
                0 <= i < self.bids@.len() ==> 0 <= (#[trigger] self.bids@[i]).remain.mantissa
                    <= MAX_MANTISSA,
            self.asks@.len() <= BOOK_CAP,
            self.bids@.len() <= BOOK_CAP,
        ensures
            r.ask_count == self.asks@.len(),
            r.bid_count == self.bids@.len(),
            r.trade_count == self.trade_count,
            r.name@ == self.name@,
            r.ask_amount.mantissa == (if total_remain(self.asks@) <= MAX_MANTISSA {
                total_remain(self.asks@)
            } else {
                MAX_MANTISSA as int
            }),
            r.bid_amount.mantissa == (if total_remain(self.bids@) <= MAX_MANTISSA {
                total_remain(self.bids@)
            } else {
                MAX_MANTISSA as int
            }),
    {
        let ask_amount = sum_remains(&self.asks);
        let bid_amount = sum_remains(&self.bids);
        MarketStatus {
            name: clone_string(&self.name),
            ask_count: self.asks.len(),
            ask_amount,
            bid_count: self.bids.len(),
            bid_amount,
            trade_count: self.trade_count,
        }
    }


    /// Re-admits one persisted resting order after checking everything
    /// a resting order must satisfy; rejects anything malformed, a
    /// duplicate id, or a full book, touching nothing.
    pub fn restore_order(&mut self, o: Order, am: &AssetManager) -> (r: Result<(), EngineError>)
        requires
            am.wf(),
            old(self).wf(*am),
        ensures
            final(self).wf(*am),
            final(self).name == old(self).name,
            final(self).idx == old(self).idx,
            final(self).base == old(self).base,
            final(self).quote == old(self).quote,
            final(self).amount_prec == old(self).amount_prec,
            final(self).price_prec == old(self).price_prec,
            final(self).fee_prec == old(self).fee_prec,
            final(self).min_amount == old(self).min_amount,
            final(self).price == old(self).price,
            final(self).trade_count == old(self).trade_count,
            r is Err ==> final(self).asks@ == old(self).asks@ && final(self).bids@ == old(
                self,
            ).bids@,
            r is Err ==> r == Err::<(), EngineError>(EngineError::InvalidArgument) || r == Err::<
                (),
                EngineError,
            >(EngineError::Internal),
            r is Ok ==> (o.side == OrderSide::ASK ==> final(self).bids@ == old(self).bids@)
                && (o.side == OrderSide::BID ==> final(self).asks@ == old(self).asks@),
            r is Ok ==> ((forall|i: int|
                0 <= i < old(self).asks@.len() ==> side_before(
                    OrderSide::ASK,
                    #[trigger] old(self).asks@[i],
                    o,
                )) && o.side == OrderSide::ASK ==> final(self).asks@ == old(self).asks@.push(o)),
            r is Ok ==> ((forall|i: int|
                0 <= i < old(self).bids@.len() ==> side_before(
                    OrderSide::BID,
                    #[trigger] old(self).bids@[i],
                    o,
                )) && o.side == OrderSide::BID ==> final(self).bids@ == old(self).bids@.push(o)),
            r is Ok ==> (o.side == OrderSide::ASK ==> exists|p: int|
                0 <= p <= old(self).asks@.len() && final(self).asks@ == old(self).asks@.insert(
                    p,
                    o,
                )),
            r is Ok ==> (o.side == OrderSide::BID ==> exists|p: int|
                0 <= p <= old(self).bids@.len() && final(self).bids@ == old(self).bids@.insert(
                    p,
                    o,
                )),
            r is Ok ==> final(self).asks@.len() + final(self).bids@.len() == old(self).asks@.len()
                + old(self).bids@.len() + 1,
    {
        if o.market != self.idx {
            return Err(EngineError::InvalidArgument);
        }
        let is_limit = match o.type_ {
            OrderType::LIMIT => true,
            OrderType::MARKET => false,
        };
        if !is_limit {
            return Err(EngineError::InvalidArgument);
        }
        if o.price.mantissa <= 0 || o.price.mantissa > MAX_INPUT_MANTISSA
            || o.amount.mantissa <= 0 || o.amount.mantissa > MAX_INPUT_MANTISSA
            || o.remain.mantissa <= 0 || o.remain.mantissa > o.amount.mantissa
            || o.finished_base.mantissa < 0 || o.finished_base.mantissa > MAX_INPUT_MANTISSA {
            return Err(EngineError::InvalidArgument);
        }
        if o.finished_base.mantissa + o.remain.mantissa != o.amount.mantissa
            || o.frozen.mantissa < 0 || o.frozen.mantissa > MAX_MANTISSA
            || o.finished_quote.mantissa < 0 || o.finished_quote.mantissa > MAX_MANTISSA
            || o.finished_fee.mantissa < 0 || o.finished_fee.mantissa > MAX_MANTISSA
            || o.maker_fee.mantissa < 0 || o.maker_fee.mantissa >= DECIMAL_UNIT
            || o.taker_fee.mantissa < 0 || o.taker_fee.mantissa >= DECIMAL_UNIT {
            return Err(EngineError::InvalidArgument);
        }
        proof {
            assert(am.assets@[self.base as int].prec_save <= DECIMAL_SCALE);
            assert(am.assets@[self.quote as int].prec_save <= DECIMAL_SCALE);
        }
        if !o.remain.has_prec(self.amount_prec) || !o.price.has_prec(self.price_prec) {
            return Err(EngineError::InvalidArgument);
        }
        match o.side {
            OrderSide::ASK => {
                if o.frozen.mantissa != o.remain.mantissa {
                    return Err(EngineError::InvalidArgument);
                }
            },
            OrderSide::BID => {
                proof {
                    vstd::arithmetic::mul::lemma_mul_upper_bound(
                        o.amount.mantissa as int,
                        MAX_INPUT_MANTISSA as int,
                        o.price.mantissa as int,
                        MAX_INPUT_MANTISSA as int,
                    );
                    vstd::arithmetic::mul::lemma_mul_nonnegative(
                        o.amount.mantissa as int,
                        o.price.mantissa as int,
                    );
                    vstd::arithmetic::mul::lemma_mul_upper_bound(
                        o.finished_base.mantissa as int,
                        MAX_INPUT_MANTISSA as int,
                        o.price.mantissa as int,
                        MAX_INPUT_MANTISSA as int,
                    );
                    vstd::arithmetic::mul::lemma_mul_nonnegative(
                        o.finished_base.mantissa as int,
                        o.price.mantissa as int,
                    );
                }
                if (o.frozen.mantissa + o.finished_quote.mantissa) * DECIMAL_UNIT
                    != o.amount.mantissa * o.price.mantissa || o.finished_quote.mantissa
                    * DECIMAL_UNIT > o.finished_base.mantissa * o.price.mantissa {
                    return Err(EngineError::InvalidArgument);
                }
            },
        }
        if self.find_order(o.id).is_some() {
            return Err(EngineError::InvalidArgument);
        }
        if self.asks.len() >= BOOK_CAP - self.bids.len() {
            return Err(EngineError::Internal);
        }
        // The re-admitted order must not cross the other side.
        match o.side {
            OrderSide::ASK => {
                if self.bids.len() > 0 && o.price.mantissa <= self.bids[0].price.mantissa {
                    return Err(EngineError::InvalidArgument);
                }
            },
            OrderSide::BID => {
                if self.asks.len() > 0 && o.price.mantissa >= self.asks[0].price.mantissa {
                    return Err(EngineError::InvalidArgument);
                }
            },
        }
        let ghost asks0 = self.asks@;
        let ghost bids0 = self.bids@;
        match o.side {
            OrderSide::ASK => {
                insert_into_book(
                    &mut self.asks,
                    o,
                    OrderSide::ASK,
                    Ghost(self.idx),
                    Ghost(self.amount_prec),
                    Ghost(self.price_prec),
                );
            },
            OrderSide::BID => {
                insert_into_book(
                    &mut self.bids,
                    o,
                    OrderSide::BID,
                    Ghost(self.idx),
                    Ghost(self.amount_prec),
                    Ghost(self.price_prec),
                );
            },
        }
        proof {
            assert forall|x: int, y: int|
                0 <= x < self.asks@.len() && 0 <= y < self.bids@.len()
                implies #[trigger] self.asks@[x].id != #[trigger] self.bids@[y].id by {
                if o.side == OrderSide::ASK {
                    assert(has_order_id(self.asks@, self.asks@[x].id));
                    if self.asks@[x].id == o.id {
                        assert(!has_order_id(bids0, o.id));
                    } else {
                        assert(has_order_id(asks0, self.asks@[x].id));
                        let xi = choose|xi: int|
                            0 <= xi < asks0.len() && asks0[xi].id == self.asks@[x].id;
                        assert(asks0[xi].id != bids0[y].id);
                    }
                } else {
                    assert(has_order_id(self.bids@, self.bids@[y].id));
                    if self.bids@[y].id == o.id {
                        assert(!has_order_id(asks0, o.id));
                    } else {
                        assert(has_order_id(bids0, self.bids@[y].id));
                        let yi = choose|yi: int|
                            0 <= yi < bids0.len() && bids0[yi].id == self.bids@[y].id;
                        assert(asks0[x].id != bids0[yi].id);
                    }
                }
            }
            if o.side == OrderSide::ASK {
                let p = choose|p: int|
                    0 <= p <= asks0.len() && self.asks@ == asks0.insert(p, o);
                assert forall|x: int, y: int|
                    0 <= x < self.asks@.len() && 0 <= y < self.bids@.len()
                    implies (#[trigger] self.asks@[x].price.mantissa) > (
                #[trigger] self.bids@[y].price.mantissa) by {
                    if x == p {
                        assert(self.asks@[x] == o);
                        assert(side_before(OrderSide::BID, bids0[0], bids0[y]) || y == 0);
                    } else {
                        let x2: int = if x < p {
                            x
                        } else {
                            x - 1
                        };
                        assert(self.asks@[x] == asks0[x2]);
                        assert(books_uncrossed(asks0, bids0));
                    }
                }
            } else {
                let p = choose|p: int|
                    0 <= p <= bids0.len() && self.bids@ == bids0.insert(p, o);
                assert forall|x: int, y: int|
                    0 <= x < self.asks@.len() && 0 <= y < self.bids@.len()
                    implies (#[trigger] self.asks@[x].price.mantissa) > (
                #[trigger] self.bids@[y].price.mantissa) by {
                    if y == p {
                        assert(self.bids@[y] == o);
                        assert(side_before(OrderSide::ASK, asks0[0], asks0[x]) || x == 0);
                    } else {
                        let y2: int = if y < p {
                            y
                        } else {
                            y - 1
                        };
                        assert(self.bids@[y] == bids0[y2]);
                        assert(books_uncrossed(asks0, bids0));
                    }
                }
            }
        }
        Ok(())
    }

    /// Drops every resting order; balances are the ledger's concern.
    pub fn reset(&mut self)
        ensures
            final(self).asks@.len() == 0,
            final(self).bids@.len() == 0,
            final(self).trade_count == 0,
            final(self).price.mantissa == 0,
            final(self).name == old(self).name,
            final(self).idx == old(self).idx,
            final(self).base == old(self).base,
            final(self).quote == old(self).quote,
            final(self).amount_prec == old(self).amount_prec,
            final(self).price_prec == old(self).price_prec,
            final(self).fee_prec == old(self).fee_prec,
            final(self).min_amount == old(self).min_amount,
    {
        self.asks.clear();
        self.bids.clear();
        self.trade_count = 0;
        self.price = Decimal::zero();
    }
}



/// Every order id of `s` is below `n`.
pub open spec fn ids_below(s: Seq<Order>, n: u64) -> bool {
    forall|i: int| 0 <= i < s.len() ==> (#[trigger] s[i].id) < n
}

impl Market {
    /// What an accepted order must satisfy here.  The amount is judged
    /// after rounding to the market's amount precision.
    pub open spec fn order_acceptable(
        self,
        side: OrderSide,
        type_: OrderType,
        amount: Decimal,
        price: Decimal,
        quote_limit: Decimal,
        taker_fee: Decimal,
        maker_fee: Decimal,
        post_only: bool,
        disable_market_order: bool,
    ) -> bool {
        &&& (type_ == OrderType::MARKET ==> !disable_market_order && !post_only
            && price.mantissa == 0 && 0 <= quote_limit.mantissa <= MAX_INPUT_MANTISSA)
        &&& (type_ == OrderType::LIMIT ==> 0 < price.mantissa <= MAX_INPUT_MANTISSA
            && price.spec_has_prec(self.price_prec as nat))
        &&& 0 <= amount.mantissa <= MAX_INPUT_MANTISSA
        &&& crate::decimal::round_half_at(amount.mantissa as int, self.amount_prec as nat)
            >= self.min_amount.mantissa
        &&& crate::decimal::round_half_at(amount.mantissa as int, self.amount_prec as nat) > 0
        &&& 0 <= taker_fee.mantissa < DECIMAL_UNIT
        &&& 0 <= maker_fee.mantissa < DECIMAL_UNIT
    }

    /// What an accepted order input must satisfy here.
    pub open spec fn input_valid(self, inp: OrderInput, disable_market_order: bool) -> bool {
        self.order_acceptable(
            inp.side,
            inp.type_,
            inp.amount,
            inp.price,
            inp.quote_limit,
            inp.taker_fee,
            inp.maker_fee,
            inp.post_only,
            disable_market_order,
        )
    }

    /// The rounded amount an accepted input trades.
    pub open spec fn rounded_amount(self, inp: OrderInput) -> int {
        crate::decimal::round_half_at(inp.amount.mantissa as int, self.amount_prec as nat)
    }

    /// What a limit order must freeze up front, over the raw request
    /// values: the rounded base amount for an ask, its exact quote
    /// value at the limit price for a bid.
    pub open spec fn freeze_amount_of(self, side: OrderSide, amount: Decimal, price: Decimal) -> int {
        match side {
            OrderSide::ASK => crate::decimal::round_half_at(
                amount.mantissa as int,
                self.amount_prec as nat,
            ),
            OrderSide::BID => crate::decimal::mul_trunc_at(
                crate::decimal::round_half_at(amount.mantissa as int, self.amount_prec as nat),
                price.mantissa as int,
                (self.amount_prec + self.price_prec) as nat,
            ),
        }
    }

    /// What a limit order must freeze up front.
    pub open spec fn freeze_amount(self, inp: OrderInput) -> int {
        self.freeze_amount_of(inp.side, inp.amount, inp.price)
    }
}


/// Everything that holds between iterations of the matching loop of
/// `put_order`: both well-formed states, the unchanged market identity,
/// the taker's bookkeeping, and the frozen-delta coupling between the
/// ledger and the books.
pub open spec fn put_books_inv(
    m: Market,
    seq: Sequencer,
    taker: Order,
    inp: OrderInput,
    old_m: Market,
    asks0: Seq<Order>,
    bids0: Seq<Order>,
    op_log_id: u64,
    now: u64,
    poc: bool,
) -> bool {
    let is_limit = taker.type_ == OrderType::LIMIT;
    let is_ask = taker.side == OrderSide::ASK;
    &&& m.name == old_m.name
    &&& m.idx == old_m.idx
    &&& m.base == old_m.base
    &&& m.quote == old_m.quote
    &&& m.amount_prec == old_m.amount_prec
    &&& m.price_prec == old_m.price_prec
    &&& m.fee_prec == old_m.fee_prec
    &&& m.min_amount == old_m.min_amount
    &&& order_wf(taker)
    &&& taker.market == m.idx
    &&& taker.price == inp.price
    &&& taker.amount.mantissa == old_m.rounded_amount(inp)
    &&& taker.maker_fee == inp.maker_fee
    &&& taker.taker_fee == inp.taker_fee
    &&& taker.post_only == inp.post_only
    &&& taker.create_time == now
    &&& taker.side == inp.side
    &&& taker.type_ == inp.type_
    &&& taker.user == inp.user_id
    &&& (taker.remain.mantissa as int) % pow10((DECIMAL_SCALE - m.amount_prec) as nat) == 0
    &&& (is_limit && is_ask ==> taker.frozen.mantissa == taker.remain.mantissa)
    &&& (is_limit && !is_ask ==> (taker.frozen.mantissa + taker.finished_quote.mantissa)
        * DECIMAL_UNIT == taker.amount.mantissa * taker.price.mantissa
        && taker.finished_quote.mantissa * DECIMAL_UNIT <= taker.finished_base.mantissa
        * taker.price.mantissa)
    &&& (!is_limit ==> taker.frozen.mantissa == 0)
    &&& (!is_limit && !is_ask && inp.quote_limit.mantissa > 0 ==> taker.finished_quote.mantissa
        <= inp.quote_limit.mantissa)
    &&& seq.order_id == taker.id + 1
    &&& taker.id < u64::MAX
    &&& seq.operation_log_id == op_log_id
    &&& ids_below(m.asks@, seq.order_id)
    &&& ids_below(m.bids@, seq.order_id)
    &&& !has_order_id(m.asks@, taker.id)
    &&& !has_order_id(m.bids@, taker.id)
    &&& m.asks@.len() + m.bids@.len() < BOOK_CAP
    &&& (is_ask ==> m.asks@ == asks0)
    &&& (!is_ask ==> m.bids@ == bids0)
    &&& (forall|id2: u64| #[trigger] has_order_id(m.asks@, id2) ==> has_order_id(asks0, id2))
    &&& (forall|id2: u64| #[trigger] has_order_id(m.bids@, id2) ==> has_order_id(bids0, id2))
    &&& (forall|u2: u32|
        #[trigger] user_order_count(m.asks@, u2) + user_order_count(m.bids@, u2)
            <= user_order_count(asks0, u2) + user_order_count(bids0, u2))
    &&& (poc ==> is_limit && taker.post_only)
    &&& (!is_limit ==> !taker.post_only)
    &&& (is_limit && taker.post_only ==> (if is_ask {
        m.bids@ == bids0
    } else {
        m.asks@ == asks0
    }))
    &&& (poc ==> (if is_ask {
        bids0.len() > 0 && taker.price.mantissa <= bids0[0].price.mantissa
    } else {
        asks0.len() > 0 && taker.price.mantissa >= asks0[0].price.mantissa
    }))
}

/// The ledger side of the matching-loop invariant: the frozen-balance
/// deltas of the ledger equal the frozen-sum deltas of the books, plus
/// the taker's own not-yet-resting freeze.
pub open spec fn put_ledger_inv(
    m: Market,
    bm: BalanceManager,
    taker: Order,
    bm0: BalanceManager,
    asks0: Seq<Order>,
    bids0: Seq<Order>,
) -> bool {
    let is_limit = taker.type_ == OrderType::LIMIT;
    let is_ask = taker.side == OrderSide::ASK;
    let user = taker.user;
    &&& m.wf(bm.asset_manager)
    &&& bm.wf()
    &&& bm.asset_manager == bm0.asset_manager
    &&& (forall|u2: u32|
        #[trigger] frozen_of(bm.entries@, u2, m.base) - frozen_of(bm0.entries@, u2, m.base)
            == user_frozen(m.asks@, u2) - user_frozen(asks0, u2) + (if is_limit && is_ask && u2
            == user {
            taker.frozen.mantissa as int
        } else {
            0
        }))
    &&& (forall|u2: u32|
        #[trigger] frozen_of(bm.entries@, u2, m.quote) - frozen_of(bm0.entries@, u2, m.quote)
            == user_frozen(m.bids@, u2) - user_frozen(bids0, u2) + (if is_limit && !is_ask && u2
            == user {
            taker.frozen.mantissa as int
        } else {
            0
        }))
    &&& (forall|u2: u32, a2: u32|
        a2 != m.base && a2 != m.quote ==> #[trigger] frozen_of(bm.entries@, u2, a2) == frozen_of(
            bm0.entries@,
            u2,
            a2,
        ))
    &&& (forall|u2: u32, a2: u32|
        a2 != m.base && a2 != m.quote ==> #[trigger] avail_of(bm.entries@, u2, a2) == avail_of(
            bm0.entries@,
            u2,
            a2,
        ))
    &&& (forall|u2: u32| #[trigger] frozen_of(bm0.entries@, u2, m.base) >= user_frozen(asks0, u2))
    &&& (forall|u2: u32|
        #[trigger] frozen_of(bm0.entries@, u2, m.quote) >= user_frozen(bids0, u2))
}

/// Everything that holds between iterations of the matching loop of
/// `put_order`.
pub open spec fn put_matching_inv(
    m: Market,
    bm: BalanceManager,
    seq: Sequencer,
    taker: Order,
    inp: OrderInput,
    old_m: Market,
    bm0: BalanceManager,
    asks0: Seq<Order>,
    bids0: Seq<Order>,
    op_log_id: u64,
    now: u64,
    poc: bool,
) -> bool {
    &&& put_books_inv(m, seq, taker, inp, old_m, asks0, bids0, op_log_id, now, poc)
    &&& put_ledger_inv(m, bm, taker, bm0, asks0, bids0)
}

/// A resource edge at which matching stops rather than risk leaving
/// the declared numeric bounds: an id stream or the trade counter at
/// its end, a ledger cell or an order's running totals close to the
/// decimal bound.
pub open spec fn matching_resources_exhausted(
    m: Market,
    bm: BalanceManager,
    seq: Sequencer,
    taker: Order,
) -> bool {
    ||| seq.trade_id == u64::MAX
    ||| m.trade_count == u64::MAX
    ||| exists|u2: u32, a2: u32|
        avail_of(bm.entries@, u2, a2) + frozen_of(bm.entries@, u2, a2) > MAX_MANTISSA
            - 1_000_000_000_000_000_000_000_000_000
    ||| taker.finished_quote.mantissa > MAX_MANTISSA - 2_000_000_000_000_000_000_000_000_000
    ||| taker.finished_fee.mantissa > MAX_MANTISSA - 2_000_000_000_000_000_000_000_000_000
    ||| exists|j: int|
        0 <= j < m.asks@.len() && ((#[trigger] m.asks@[j]).finished_quote.mantissa > MAX_MANTISSA
            - 2_000_000_000_000_000_000_000_000_000 || m.asks@[j].finished_fee.mantissa
            > MAX_MANTISSA - 2_000_000_000_000_000_000_000_000_000)
    ||| exists|j: int|
        0 <= j < m.bids@.len() && ((#[trigger] m.bids@[j]).finished_quote.mantissa > MAX_MANTISSA
            - 2_000_000_000_000_000_000_000_000_000 || m.bids@[j].finished_fee.mantissa
            > MAX_MANTISSA - 2_000_000_000_000_000_000_000_000_000)
}

/// A market taker whose funds or quote budget no longer cover one
/// amount-precision step at the best opposite price.
pub open spec fn market_taker_starved(m: Market, bm: BalanceManager, taker: Order, ql: Decimal) -> bool {
    if taker.side == OrderSide::ASK {
        trunc_at(avail_of(bm.entries@, taker.user, m.base), m.amount_prec as nat) == 0
    } else {
        m.asks@.len() > 0 && ({
            let af = avail_of(bm.entries@, taker.user, m.quote);
            let budget = if ql.mantissa > 0 && ql.mantissa - taker.finished_quote.mantissa < af {
                ql.mantissa - taker.finished_quote.mantissa
            } else {
                af
            };
            div_sat_at(budget, m.asks@[0].price.mantissa as int, m.amount_prec as nat) == 0
        })
    }
}

/// The book priority is total over distinct ids and transitive.
proof fn lemma_side_before_total(side: OrderSide, a: Order, b: Order)
    requires
        a.id != b.id,
    ensures
        side_before(side, a, b) || side_before(side, b, a),
        !(side_before(side, a, b) && side_before(side, b, a)),
{
}

/// Inserts `o` at its priority position in one book.
#[verifier::rlimit(30)]
fn insert_into_book(
    book: &mut Vec<Order>,
    o: Order,
    side: OrderSide,
    Ghost(midx): Ghost<u32>,
    Ghost(ap): Ghost<u32>,
    Ghost(pp): Ghost<u32>,
)
    requires
        book_ok(old(book)@, midx, side, ap, pp),
        resting_wf(o, midx),
        o.side == side,
        (o.remain.mantissa as int) % pow10((DECIMAL_SCALE - ap) as nat) == 0,
        (o.price.mantissa as int) % pow10((DECIMAL_SCALE - pp) as nat) == 0,
        !has_order_id(old(book)@, o.id),
        old(book)@.len() < usize::MAX,
        forall|x: int, y: int| 0 <= x < y < old(book)@.len() ==> old(book)@[x].id != old(
            book,
        )@[y].id,
    ensures
        book_ok(final(book)@, midx, side, ap, pp),
        final(book)@.len() == old(book)@.len() + 1,
        forall|x: int, y: int|
            0 <= x < y < final(book)@.len() ==> final(book)@[x].id != final(book)@[y].id,
        forall|u: u32|
            #[trigger] user_frozen(final(book)@, u) == user_frozen(old(book)@, u) + frozen_share(
                o,
                u,
            ),
        forall|u: u32|
            #[trigger] user_order_count(final(book)@, u) == user_order_count(old(book)@, u)
                + count_share(o, u),
        forall|id2: u64|
            #[trigger] has_order_id(final(book)@, id2) == (has_order_id(old(book)@, id2) || id2
                == o.id),
        (forall|i: int| 0 <= i < old(book)@.len() ==> side_before(side, #[trigger] old(book)@[i], o))
            ==> final(book)@ == old(book)@.push(o),
        exists|p: int| 0 <= p <= old(book)@.len() && final(book)@ == old(book)@.insert(p, o),
{
    let ghost pre = book@;
    let n = book.len();
    let mut pos: usize = 0;
    let mut found = false;
    while pos < n && !found
        invariant
            n == book@.len(),
            book@ == pre,
            pos <= n,
            forall|j: int| 0 <= j < pos ==> !side_before(side, o, #[trigger] book@[j]),
            found ==> pos < n && side_before(side, o, book@[pos as int]),
        decreases n - pos, (if found { 0int } else { 1int }),
    {
        let cur_price = book[pos].price.mantissa;
        let cur_id = book[pos].id;
        let before = match side {
            OrderSide::ASK => o.price.mantissa < cur_price || (o.price.mantissa == cur_price
                && o.id < cur_id),
            OrderSide::BID => o.price.mantissa > cur_price || (o.price.mantissa == cur_price
                && o.id < cur_id),
        };
        if before {
            found = true;
        } else {
            pos = pos + 1;
        }
    }
    book.insert(pos, o);
    proof {
        let t = book@;
        let p = pos as int;
        assert(t == pre.insert(p, o));
        assert(forall|k: int| 0 <= k < p ==> t[k] == pre[k]);
        assert(t[p] == o);
        assert(forall|k: int| p < k < t.len() ==> t[k] == pre[k - 1]);
        assert forall|x: int, y: int| 0 <= x < y < t.len() implies side_before(
            side,
            t[x],
            t[y],
        ) by {
            if y == p {
                assert(!side_before(side, o, pre[x]));
                assert(pre[x].id != o.id) by {
                    if pre[x].id == o.id {
                        assert(has_order_id(pre, o.id));
                    }
                }
                lemma_side_before_total(side, pre[x], o);
            } else if x == p {
                assert(found && side_before(side, o, pre[p]));
                if y - 1 > p {
                    assert(side_before(side, pre[p], pre[y - 1]));
                }
            } else if x < p && y > p {
                if x < y - 1 {
                    assert(side_before(side, pre[x], pre[y - 1]));
                }
            }
        }
        assert forall|u: u32|
            #[trigger] user_frozen(t, u) == user_frozen(pre, u) + frozen_share(o, u) by {
            lemma_user_sums_insert(pre, p, o, u);
        }
        assert forall|u: u32|
            #[trigger] user_order_count(t, u) == user_order_count(pre, u) + count_share(
                o,
                u,
            ) by {
            lemma_user_sums_insert(pre, p, o, u);
        }
        assert forall|id2: u64|
            #[trigger] has_order_id(t, id2) == (has_order_id(pre, id2) || id2 == o.id) by {
            if has_order_id(pre, id2) {
                let j = choose|j: int| 0 <= j < pre.len() && pre[j].id == id2;
                if j < p {
                    assert(t[j].id == id2);
                } else {
                    assert(t[j + 1].id == id2);
                }
            }
            if has_order_id(t, id2) {
                let j = choose|j: int| 0 <= j < t.len() && t[j].id == id2;
                if j != p {
                    if j < p {
                        assert(pre[j].id == id2);
                    } else {
                        assert(pre[j - 1].id == id2);
                    }
                }
            }
        }
        assert forall|x: int, y: int| 0 <= x < y < t.len() implies t[x].id != t[y].id by {
            let x2: int = if x < p { x } else { x - 1 };
            let y2: int = if y < p { y } else { y - 1 };
            if x == p {
                if pre[y2].id == o.id {
                    assert(has_order_id(pre, o.id));
                }
            } else if y == p {
                if pre[x2].id == o.id {
                    assert(has_order_id(pre, o.id));
                }
            } else {
                assert(pre[x2].id != pre[y2].id);
            }
        }
        if forall|i: int| 0 <= i < pre.len() ==> side_before(side, #[trigger] pre[i], o) {
            assert forall|j: int| 0 <= j < pre.len() implies !side_before(
                side,
                o,
                #[trigger] pre[j],
            ) by {
                assert(side_before(side, pre[j], o));
                assert(pre[j].id != o.id) by {
                    if pre[j].id == o.id {
                        assert(has_order_id(pre, o.id));
                    }
                }
                lemma_side_before_total(side, pre[j], o);
            }
            assert(!found);
            assert(p == pre.len());
            assert(t =~= pre.push(o));
        }
    }
}

/// Removes the order at `i` from one book; returns it.
#[verifier::rlimit(30)]
fn remove_from_book(
    book: &mut Vec<Order>,
    i: usize,
    side: OrderSide,
    Ghost(midx): Ghost<u32>,
    Ghost(ap): Ghost<u32>,
    Ghost(pp): Ghost<u32>,
) -> (r: Order)
    requires
        book_ok(old(book)@, midx, side, ap, pp),
        forall|x: int, y: int| 0 <= x < y < old(book)@.len() ==> old(book)@[x].id != old(
            book,
        )@[y].id,
        i < old(book)@.len(),
    ensures
        r == old(book)@[i as int],
        book_ok(final(book)@, midx, side, ap, pp),
        final(book)@ == old(book)@.remove(i as int),
        final(book)@.len() == old(book)@.len() - 1,
        forall|u: u32|
            #[trigger] user_frozen(final(book)@, u) == user_frozen(old(book)@, u) - frozen_share(
                r,
                u,
            ),
        forall|u: u32|
            #[trigger] user_order_count(final(book)@, u) == user_order_count(old(book)@, u)
                - count_share(r, u),
        forall|id2: u64|
            #[trigger] has_order_id(final(book)@, id2) == (has_order_id(old(book)@, id2) && id2
                != r.id),
        forall|x: int, y: int|
            0 <= x < y < final(book)@.len() ==> final(book)@[x].id != final(book)@[y].id,
{
    let ghost pre = book@;
    let r = book.remove(i);
    proof {
        let t = book@;
        let p = i as int;
        assert(t == pre.remove(p));
        assert(forall|k: int| 0 <= k < p ==> t[k] == pre[k]);
        assert(forall|k: int| p <= k < t.len() ==> t[k] == pre[k + 1]);
        assert forall|x: int, y: int| 0 <= x < y < t.len() implies side_before(
            side,
            t[x],
            t[y],
        ) by {
            let x2: int = if x < p { x } else { x + 1 };
            let y2: int = if y < p { y } else { y + 1 };
            assert(side_before(side, pre[x2], pre[y2]));
        }
        assert forall|u: u32|
            #[trigger] user_frozen(t, u) == user_frozen(pre, u) - frozen_share(r, u) by {
            lemma_user_sums_remove(pre, p, u);
        }
        assert forall|u: u32|
            #[trigger] user_order_count(t, u) == user_order_count(pre, u) - count_share(
                r,
                u,
            ) by {
            lemma_user_sums_remove(pre, p, u);
        }
        assert forall|id2: u64|
            #[trigger] has_order_id(t, id2) == (has_order_id(pre, id2) && id2 != r.id) by {
            if has_order_id(t, id2) {
                let j = choose|j: int| 0 <= j < t.len() && t[j].id == id2;
                if j < p {
                    assert(pre[j].id == id2);
                } else {
                    assert(pre[j + 1].id == id2);
                }
                if id2 == r.id {
                    let j2: int = if j < p { j } else { j + 1 };
                    assert(pre[j2].id == pre[p].id && j2 != p);
                }
            }
            if has_order_id(pre, id2) && id2 != r.id {
                let j = choose|j: int| 0 <= j < pre.len() && pre[j].id == id2;
                if j < p {
                    assert(t[j].id == id2);
                } else {
                    assert(t[j - 1].id == id2);
                }
            }
        }
        assert forall|x: int, y: int| 0 <= x < y < t.len() implies t[x].id != t[y].id by {
            let x2: int = if x < p { x } else { x + 1 };
            let y2: int = if y < p { y } else { y + 1 };
            assert(pre[x2].id != pre[y2].id);
        }
    }
    r
}

/// A user with no orders in `s` has zero counted and zero frozen there.
pub proof fn lemma_user_count_zero(s: Seq<Order>, u: u32)
    requires
        forall|j: int| 0 <= j < s.len() ==> #[trigger] s[j].user != u,
    ensures
        user_order_count(s, u) == 0,
        user_frozen(s, u) == 0,
    decreases s.len(),
{
    if s.len() > 0 {
        assert(forall|j: int| 0 <= j < s.drop_last().len() ==> #[trigger] s.drop_last()[j].user != u);
        lemma_user_count_zero(s.drop_last(), u);
    }
}

/// A zero order count means zero frozen.
pub proof fn lemma_user_frozen_of_absent(s: Seq<Order>, u: u32)
    requires
        user_order_count(s, u) == 0,
        forall|j: int| 0 <= j < s.len() ==> #[trigger] s[j].frozen.mantissa >= 0,
    ensures
        user_frozen(s, u) == 0,
    decreases s.len(),
{
    if s.len() > 0 {
        lemma_user_order_count_bound(s.drop_last(), u);
        assert(forall|j: int|
            0 <= j < s.drop_last().len() ==> #[trigger] s.drop_last()[j].frozen.mantissa >= 0);
        if s.last().user == u {
            lemma_user_order_count_bound(s.drop_last(), u);
            assert(user_order_count(s, u) >= 1);
        }
        lemma_user_frozen_of_absent(s.drop_last(), u);
    }
}

/// A member's frozen amount never exceeds its user's sum.
pub proof fn lemma_user_frozen_member(s: Seq<Order>, i: int, u: u32)
    requires
        0 <= i < s.len(),
        s[i].user == u,
        forall|j: int| 0 <= j < s.len() ==> #[trigger] s[j].frozen.mantissa >= 0,
    ensures
        user_frozen(s, u) >= s[i].frozen.mantissa,
        user_frozen(s, u) >= 0,
    decreases s.len(),
{
    if s.len() > 0 {
        if i == s.len() - 1 {
            lemma_user_frozen_nonneg(s.drop_last(), u);
        } else {
            assert(forall|j: int|
                0 <= j < s.drop_last().len() ==> #[trigger] s.drop_last()[j].frozen.mantissa >= 0);
            lemma_user_frozen_member(s.drop_last(), i, u);
        }
    }
}

/// With nonnegative frozen amounts the user sums are nonnegative.
pub proof fn lemma_user_frozen_nonneg(s: Seq<Order>, u: u32)
    requires
        forall|j: int| 0 <= j < s.len() ==> #[trigger] s[j].frozen.mantissa >= 0,
    ensures
        user_frozen(s, u) >= 0,
    decreases s.len(),
{
    if s.len() > 0 {
        assert(forall|j: int|
            0 <= j < s.drop_last().len() ==> #[trigger] s.drop_last()[j].frozen.mantissa >= 0);
        lemma_user_frozen_nonneg(s.drop_last(), u);
    }
}


/// A fresh string with the same characters.
fn clone_string(s: &String) -> (r: String)
    ensures
        r@ == s@,
{
    s.clone()
}

/// Sums the open base amounts of one book, saturating at the decimal
/// bound (the sum of a full book can exceed any single balance).
fn sum_remains(s: &Vec<Order>) -> (r: Decimal)
    requires
        forall|i: int| 0 <= i < s@.len() ==> 0 <= (#[trigger] s@[i]).remain.mantissa <= MAX_MANTISSA,
    ensures
        0 <= r.mantissa <= MAX_MANTISSA,
        r.mantissa == (if total_remain(s@) <= MAX_MANTISSA {
            total_remain(s@)
        } else {
            MAX_MANTISSA as int
        }),
{
    let n = s.len();
    let mut acc: i128 = 0;
    let mut i: usize = 0;
    while i < n
        invariant
            n == s@.len(),
            i <= n,
            0 <= acc <= MAX_MANTISSA,
            acc == (if total_remain(s@.take(i as int)) <= MAX_MANTISSA {
                total_remain(s@.take(i as int))
            } else {
                MAX_MANTISSA as int
            }),
            forall|j: int|
                0 <= j < s@.len() ==> 0 <= (#[trigger] s@[j]).remain.mantissa <= MAX_MANTISSA,
        decreases n - i,
    {
        proof {
            assert(s@.take(i + 1).drop_last() =~= s@.take(i as int));
            assert(s@.take(i + 1).last() == s@[i as int]);
            lemma_total_remain_nonneg(s@.take(i as int));
        }
        if acc <= MAX_MANTISSA - s[i].remain.mantissa {
            acc = acc + s[i].remain.mantissa;
        } else {
            acc = MAX_MANTISSA;
        }
        i = i + 1;
    }
    proof {
        assert(s@.take(n as int) =~= s@);
    }
    Decimal { mantissa: acc }
}

/// A book of nonnegative remainders sums to something nonnegative.
proof fn lemma_total_remain_nonneg(s: Seq<Order>)
    requires
        forall|i: int| 0 <= i < s.len() ==> 0 <= (#[trigger] s[i]).remain.mantissa,
    ensures
        total_remain(s) >= 0,
    decreases s.len(),
{
    if s.len() > 0 {
        assert(forall|i: int|
            0 <= i < s.drop_last().len() ==> 0 <= (#[trigger] s.drop_last()[i]).remain.mantissa);
        lemma_total_remain_nonneg(s.drop_last());
    }
}

/// Aggregates one book into at most `limit` price levels.
fn depth_side(s: &Vec<Order>, limit: usize, interval: &Decimal, round_up: bool) -> (r: Vec<
    PriceInfo,
>)
    requires
        s@.len() < usize::MAX,
        forall|i: int|
            0 <= i < s@.len() ==> 0 <= (#[trigger] s@[i]).remain.mantissa <= MAX_MANTISSA && 0
                <= s@[i].price.mantissa <= MAX_MANTISSA,
        0 <= interval.mantissa <= MAX_MANTISSA,
    ensures
        r@ == ({
            let full = depth_levels(s@, interval.mantissa as int, round_up);
            if full.len() <= limit {
                full
            } else {
                full.take(limit as int)
            }
        }),
        r@.len() <= limit,
{
    let n = s.len();
    let mut out: Vec<PriceInfo> = Vec::new();
    let mut i: usize = 0;
    while i < n
        invariant
            n == s@.len(),
            i <= n,
            out@ == depth_levels(s@.take(i as int), interval.mantissa as int, round_up),
            out@.len() <= i,
            forall|j: int|
                0 <= j < s@.len() ==> 0 <= (#[trigger] s@[j]).remain.mantissa <= MAX_MANTISSA && 0
                    <= s@[j].price.mantissa <= MAX_MANTISSA,
            0 <= interval.mantissa <= MAX_MANTISSA,
        decreases n - i,
    {
        proof {
            assert(s@.take(i + 1).drop_last() =~= s@.take(i as int));
            assert(s@.take(i + 1).last() == s@[i as int]);
        }
        let price = bucket_price(&s[i].price, interval, round_up);
        let amount = s[i].remain;
        let m = out.len();
        if m > 0 && out[m - 1].price.mantissa == price.mantissa {
            let merged: i128 = if out[m - 1].amount.mantissa + amount.mantissa <= MAX_MANTISSA {
                out[m - 1].amount.mantissa + amount.mantissa
            } else {
                MAX_MANTISSA
            };
            out[m - 1] = PriceInfo { price, amount: Decimal { mantissa: merged } };
        } else {
            out.push(PriceInfo { price, amount });
        }
        i = i + 1;
    }
    proof {
        assert(s@.take(n as int) =~= s@);
    }
    out.truncate(limit);
    out
}

/// The price level a price falls into.
fn bucket_price(price: &Decimal, interval: &Decimal, round_up: bool) -> (r: Decimal)
    requires
        0 <= price.mantissa <= MAX_MANTISSA,
        0 <= interval.mantissa <= MAX_MANTISSA,
    ensures
        r.mantissa == spec_bucket(price.mantissa as int, interval.mantissa as int, round_up),
        0 <= r.mantissa <= MAX_MANTISSA,
{
    if interval.mantissa <= 0 {
        return *price;
    }
    let d: u128 = interval.mantissa as u128;
    let p: u128 = price.mantissa as u128;
    proof {
        vstd::arithmetic::div_mod::lemma_fundamental_div_mod(p as int, d as int);
        vstd::arithmetic::div_mod::lemma_mod_bound(p as int, d as int);
        vstd::arithmetic::div_mod::lemma_div_pos_is_pos(p as int, d as int);
        vstd::arithmetic::mul::lemma_mul_nonnegative((p as int) / (d as int), d as int);
        vstd::arithmetic::mul::lemma_mul_is_commutative((p as int) / (d as int), d as int);
    }
    let down: u128 = (p / d) * d;
    if round_up && down < p {
        let up: u128 = down + d;
        if up > MAX_MANTISSA as u128 {
            Decimal { mantissa: MAX_MANTISSA }
        } else {
            Decimal { mantissa: up as i128 }
        }
    } else {
        Decimal { mantissa: down as i128 }
    }
}


/// Orders of `u` in a prefix never outnumber the prefix.
pub proof fn lemma_user_order_count_bound(s: Seq<Order>, u: u32)
    ensures
        0 <= user_order_count(s, u) <= s.len(),
    decreases s.len(),
{
    if s.len() > 0 {
        lemma_user_order_count_bound(s.drop_last(), u);
    }
}

/// Counts the orders of `u` in one book.
fn count_side(s: &Vec<Order>, user: u32) -> (r: usize)
    ensures
        r == user_order_count(s@, user),
{
    proof {
        lemma_user_order_count_bound(s@, user);
    }
    let n = s.len();
    let mut cnt: usize = 0;
    let mut i: usize = 0;
    while i < n
        invariant
            n == s@.len(),
            i <= n,
            cnt == user_order_count(s@.take(i as int), user),
            cnt <= i,
        decreases n - i,
    {
        proof {
            assert(s@.take(i + 1).drop_last() =~= s@.take(i as int));
            assert(s@.take(i + 1).last() == s@[i as int]);
        }
        if s[i].user == user {
            cnt = cnt + 1;
        }
        i = i + 1;
    }
    proof {
        assert(s@.take(n as int) =~= s@);
    }
    cnt
}

/// The resting order carrying `id`, searched ask book first (unique
/// under `ids_distinct`).
pub open spec fn order_with_id(m: Market, id: u64) -> Order {
    if has_order_id(m.asks@, id) {
        m.asks@[index_of_order(m.asks@, id)]
    } else {
        m.bids@[index_of_order(m.bids@, id)]
    }
}

/// Whether some market in `ms` bears the name.
pub open spec fn has_market(ms: Seq<Market>, name: Seq<char>) -> bool {
    exists|i: int| 0 <= i < ms.len() && ms[i].name@ == name
}

/// The index of the market bearing the name (unique when names are).
pub open spec fn market_index(ms: Seq<Market>, name: Seq<char>) -> int {
    choose|i: int| 0 <= i < ms.len() && ms[i].name@ == name
}

/// With pairwise distinct names, any index bearing `name` is
/// `market_index`.
pub proof fn lemma_market_index_unique(ms: Seq<Market>, name: Seq<char>, i: int)
    requires
        forall|x: int, y: int| 0 <= x < y < ms.len() ==> ms[x].name@ !== ms[y].name@,
        0 <= i < ms.len(),
        ms[i].name@ == name,
    ensures
        has_market(ms, name),
        market_index(ms, name) == i,
{
    assert(has_market(ms, name));
    let j = market_index(ms, name);
    assert(0 <= j < ms.len() && ms[j].name@ == name);
}


} // verus!
