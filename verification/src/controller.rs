//! The single-writer controller: every mutating operation runs through
//! it, which validates, applies the change through the ledger and the
//! markets, hands the resulting events to the sink, and appends one
//! operation-log entry — the journal replay rebuilds state from.

use vstd::prelude::*;
use crate::asset::{has_asset, AssetManager};
use crate::balance::{
    avail_of, balance_of, frozen_of, BalanceManager, BalanceType,
};
use crate::config::{Asset, Settings};
use crate::config;
use crate::decimal::{round_half_at, Decimal, DECIMAL_SCALE, MAX_MANTISSA};
use crate::market::{
    books_uncrossed, has_market, has_order_id, ids_below, lemma_market_index_unique, market_index,
    market_taker_starved, matching_resources_exhausted, order_with_id, trade_sane, Market,
    MarketDepth,
    MarketStatus, PriceInfo,
};
use crate::order::{user_frozen, user_order_count, Order, OrderInput, OrderSide, OrderType};
use crate::persist::{BalanceHistory, InternalTx, MemBasedPersistor, Message};
use crate::sequencer::Sequencer;
use crate::EngineError;

verus! {

/// What a deposit-or-withdraw style change is for.
#[derive(Clone, Copy, Debug, PartialEq, Eq, Structural)]
pub enum BusinessType {
    Deposit,
    Withdraw,
    Transfer,
    Trade,
}

/// A balance change request as the update controller takes it.
pub struct BalanceUpdateParams {
    pub balance_type: BalanceType,
    pub business_type: BusinessType,
    pub user_id: u32,
    pub asset: u32,
    pub business: String,
    pub business_id: u64,
    pub market_price: Decimal,
    pub change: Decimal,
    pub detail: String,
}

/// One remembered application of a business change.
pub struct BalanceUpdateEntry {
    pub user_id: u32,
    pub asset: u32,
    pub business: String,
    pub business_id: u64,
    pub change: Decimal,
}

pub open spec fn has_update_key(
    s: Seq<BalanceUpdateEntry>,
    u: u32,
    a: u32,
    b: Seq<char>,
    bid: u64,
) -> bool {
    exists|i: int|
        0 <= i < s.len() && s[i].user_id == u && s[i].asset == a && s[i].business@ == b
            && s[i].business_id == bid
}

pub open spec fn update_key_index(
    s: Seq<BalanceUpdateEntry>,
    u: u32,
    a: u32,
    b: Seq<char>,
    bid: u64,
) -> int {
    choose|i: int|
        0 <= i < s.len() && s[i].user_id == u && s[i].asset == a && s[i].business@ == b
            && s[i].business_id == bid
}

/// The idempotency cache of the balance update controller.
pub struct BalanceUpdateController {
    pub entries: Vec<BalanceUpdateEntry>,
}

/// Keys are pairwise distinct in the cache.
pub open spec fn update_keys_unique(s: Seq<BalanceUpdateEntry>) -> bool {
    forall|i: int, j: int|
        0 <= i < j < s.len() ==> !(s[i].user_id == s[j].user_id && s[i].asset == s[j].asset
            && s[i].business@ == s[j].business@ && s[i].business_id == s[j].business_id)
}

impl BalanceUpdateController {
    pub fn new() -> (r: BalanceUpdateController)
        ensures
            r.entries@.len() == 0,
    {
        BalanceUpdateController { entries: Vec::new() }
    }

    pub fn reset(&mut self)
        ensures
            final(self).entries@.len() == 0,
    {
        self.entries.clear();
    }

    /// Whether this idempotency key was already applied.
    pub fn has_key(&self, user_id: u32, asset: u32, business: &String, business_id: u64) -> (r:
        bool)
        ensures
            r == has_update_key(self.entries@, user_id, asset, business@, business_id),
    {
        self.find_key(user_id, asset, business, business_id).is_some()
    }

    /// The remembered change under this idempotency key, if any.
    fn find_key(&self, user_id: u32, asset: u32, business: &String, business_id: u64) -> (r:
        Option<usize>)
        ensures
            match r {
                Some(i) => i < self.entries@.len() && self.entries@[i as int].user_id == user_id
                    && self.entries@[i as int].asset == asset && self.entries@[i as int].business@
                    == business@ && self.entries@[i as int].business_id == business_id,
                None => !has_update_key(self.entries@, user_id, asset, business@, business_id),
            },
    {
        let n = self.entries.len();
        let mut i: usize = 0;
        while i < n
            invariant
                n == self.entries@.len(),
                i <= n,
                forall|j: int|
                    0 <= j < i ==> !(#[trigger] self.entries@[j].user_id == user_id
                        && self.entries@[j].asset == asset && self.entries@[j].business@
                        == business@ && self.entries@[j].business_id == business_id),
            decreases n - i,
        {
            if self.entries[i].user_id == user_id && self.entries[i].asset == asset
                && self.entries[i].business == *business && self.entries[i].business_id
                == business_id {
                return Some(i);
            }
            i = i + 1;
        }
        None
    }

    /// Applies one balance change idempotently: a repeated key with the
    /// same change succeeds without reapplying; a repeated key with a
    /// different change fails with `RepeatUpdate`; a fresh key adds to
    /// or subtracts from the available balance and is remembered.
    /// Returns the balance history row to record, or `None` when the
    /// change was a replayed duplicate.
    pub fn update_user_balance(
        &mut self,
        balance_manager: &mut BalanceManager,
        params: BalanceUpdateParams,
        now: u64,
    ) -> (r: Result<Option<BalanceHistory>, EngineError>)
        requires
            old(balance_manager).wf(),
            update_keys_unique(old(self).entries@),
            params.asset < old(balance_manager).asset_manager.assets@.len(),
            -MAX_MANTISSA <= params.change.mantissa <= MAX_MANTISSA,
        ensures
            update_keys_unique(final(self).entries@),
            final(balance_manager).wf(),
            final(balance_manager).asset_manager == old(balance_manager).asset_manager,
            ({
                let dup = has_update_key(
                    old(self).entries@,
                    params.user_id,
                    params.asset,
                    params.business@,
                    params.business_id,
                );
                let prev_change = old(self).entries@[update_key_index(
                    old(self).entries@,
                    params.user_id,
                    params.asset,
                    params.business@,
                    params.business_id,
                )].change;
                &&& (dup && prev_change == params.change ==> r is Ok
                    && final(balance_manager).entries@ == old(balance_manager).entries@
                    && final(self).entries@ == old(self).entries@ && r->Ok_0 is None)
                &&& (r == Err::<Option<BalanceHistory>, EngineError>(EngineError::RepeatUpdate)
                    <==> (dup && prev_change != params.change))
                &&& (r is Err ==> final(balance_manager).entries@ == old(
                    balance_manager,
                ).entries@ && final(self).entries@ == old(self).entries@)
                &&& (r is Err ==> (r == Err::<Option<BalanceHistory>, EngineError>(
                    EngineError::RepeatUpdate,
                ) || r == Err::<Option<BalanceHistory>, EngineError>(
                    EngineError::InsufficientBalance,
                ) || r == Err::<Option<BalanceHistory>, EngineError>(EngineError::Internal)))
                &&& (!dup && r is Ok ==> ({
                    let rd = round_half_at(
                        params.change.mantissa as int,
                        old(balance_manager).asset_manager.assets@[params.asset as int].prec_save
                            as nat,
                    );
                    &&& (params.change.mantissa >= 0 ==> avail_of(
                        final(balance_manager).entries@,
                        params.user_id,
                        params.asset,
                    ) == avail_of(old(balance_manager).entries@, params.user_id, params.asset)
                        + rd)
                    &&& (params.change.mantissa < 0 ==> avail_of(
                        final(balance_manager).entries@,
                        params.user_id,
                        params.asset,
                    ) == avail_of(old(balance_manager).entries@, params.user_id, params.asset)
                        - round_half_at(
                        -params.change.mantissa as int,
                        old(balance_manager).asset_manager.assets@[params.asset as int].prec_save
                            as nat,
                    ))
                    &&& r->Ok_0 is Some
                }))
                &&& (!dup && params.change.mantissa < 0 ==> (r == Err::<
                    Option<BalanceHistory>,
                    EngineError,
                >(EngineError::InsufficientBalance) <==> avail_of(
                    old(balance_manager).entries@,
                    params.user_id,
                    params.asset,
                ) < round_half_at(
                    -params.change.mantissa as int,
                    old(balance_manager).asset_manager.assets@[params.asset as int].prec_save
                        as nat,
                )))
                &&& (!dup && params.change.mantissa >= 0 ==> (r == Err::<
                    Option<BalanceHistory>,
                    EngineError,
                >(EngineError::Internal) <==> avail_of(
                    old(balance_manager).entries@,
                    params.user_id,
                    params.asset,
                ) + frozen_of(old(balance_manager).entries@, params.user_id, params.asset)
                    + round_half_at(
                    params.change.mantissa as int,
                    old(balance_manager).asset_manager.assets@[params.asset as int].prec_save
                        as nat,
                ) > MAX_MANTISSA))
                &&& (!dup && params.change.mantissa < 0 ==> r != Err::<
                    Option<BalanceHistory>,
                    EngineError,
                >(EngineError::Internal))
                &&& (!dup && params.change.mantissa >= 0 ==> r != Err::<
                    Option<BalanceHistory>,
                    EngineError,
                >(EngineError::InsufficientBalance))
                &&& (!dup && r is Ok ==> ({
                    let t = final(self).entries@;
                    &&& t.len() == old(self).entries@.len() + 1
                    &&& (forall|k: int| 0 <= k < old(self).entries@.len() ==> #[trigger] t[k] == old(
                        self,
                    ).entries@[k])
                    &&& t.last().user_id == params.user_id
                    &&& t.last().asset == params.asset
                    &&& t.last().business@ == params.business@
                    &&& t.last().business_id == params.business_id
                    &&& t.last().change == params.change
                }))
            }),
            forall|u2: u32, a2: u32|
                !(u2 == params.user_id && a2 == params.asset) ==> #[trigger] avail_of(
                    final(balance_manager).entries@,
                    u2,
                    a2,
                ) == avail_of(old(balance_manager).entries@, u2, a2),
            forall|u2: u32, a2: u32|
                #[trigger] frozen_of(final(balance_manager).entries@, u2, a2) == frozen_of(
                    old(balance_manager).entries@,
                    u2,
                    a2,
                ),
    {
        match self.find_key(params.user_id, params.asset, &params.business, params.business_id) {
            Some(i) => {
                proof {
                    lemma_update_key_at(
                        self.entries@,
                        params.user_id,
                        params.asset,
                        params.business@,
                        params.business_id,
                        i as int,
                    );
                }
                if self.entries[i].change.mantissa == params.change.mantissa {
                    Ok(None)
                } else {
                    Err(EngineError::RepeatUpdate)
                }
            },
            None => {
                let applied: Decimal;
                if params.change.mantissa >= 0 {
                    match balance_manager.add(
                        params.user_id,
                        BalanceType::AVAILABLE,
                        params.asset,
                        &params.change,
                    ) {
                        Ok(_) => {},
                        Err(e) => {
                            return Err(e);
                        },
                    }
                } else {
                    let mag = Decimal { mantissa: -params.change.mantissa };
                    match balance_manager.sub(
                        params.user_id,
                        BalanceType::AVAILABLE,
                        params.asset,
                        &mag,
                    ) {
                        Ok(_) => {},
                        Err(e) => {
                            return Err(e);
                        },
                    }
                }
                let avail = balance_manager.get(
                    params.user_id,
                    BalanceType::AVAILABLE,
                    params.asset,
                );
                let frozen = balance_manager.get(
                    params.user_id,
                    BalanceType::FREEZE,
                    params.asset,
                );
                let ghost pre = self.entries@;
                self.entries.push(
                    BalanceUpdateEntry {
                        user_id: params.user_id,
                        asset: params.asset,
                        business: params.business,
                        business_id: params.business_id,
                        change: params.change,
                    },
                );
                proof {
                    let l = pre.len() as int;
                    assert forall|i: int, j: int|
                        0 <= i < j < self.entries@.len() implies !(self.entries@[i].user_id
                        == self.entries@[j].user_id && self.entries@[i].asset
                        == self.entries@[j].asset && self.entries@[i].business@
                        == self.entries@[j].business@ && self.entries@[i].business_id
                        == self.entries@[j].business_id) by {
                        if j == l {
                            assert(self.entries@[i] == pre[i]);
                            if pre[i].user_id == params.user_id && pre[i].asset == params.asset
                                && pre[i].business@ == params.business@ && pre[i].business_id
                                == params.business_id {
                                assert(has_update_key(
                                    pre,
                                    params.user_id,
                                    params.asset,
                                    params.business@,
                                    params.business_id,
                                ));
                            }
                        } else {
                            assert(self.entries@[i] == pre[i]);
                            assert(self.entries@[j] == pre[j]);
                        }
                    }
                }
                let total = match avail.checked_add(&frozen) {
                    Some(t) => t,
                    None => Decimal { mantissa: MAX_MANTISSA },
                };
                Ok(
                    Some(
                        BalanceHistory {
                            time: now,
                            user_id: params.user_id,
                            business_id: params.business_id,
                            asset: params.asset,
                            business: clone_string_c(&self.entries[self.entries.len() - 1].business),
                            market_price: params.market_price,
                            change: params.change,
                            balance: total,
                            balance_available: avail,
                            balance_frozen: frozen,
                            detail: params.detail,
                        },
                    ),
                )
            },
        }
    }
}

/// Any index holding the key is `update_key_index` when keys are unique;
/// here used only to read the found entry's change.
proof fn lemma_update_key_at(
    s: Seq<BalanceUpdateEntry>,
    u: u32,
    a: u32,
    b: Seq<char>,
    bid: u64,
    i: int,
)
    requires
        update_keys_unique(s),
        0 <= i < s.len(),
        s[i].user_id == u,
        s[i].asset == a,
        s[i].business@ == b,
        s[i].business_id == bid,
    ensures
        has_update_key(s, u, a, b, bid),
        update_key_index(s, u, a, b, bid) == i,
{
    assert(has_update_key(s, u, a, b, bid));
    let j = update_key_index(s, u, a, b, bid);
    assert(0 <= j < s.len() && s[j].user_id == u && s[j].asset == a && s[j].business@ == b
        && s[j].business_id == bid);
}

/// A fresh string with the same characters.
fn clone_string_c(s: &String) -> (r: String)
    ensures
        r@ == s@,
{
    s.clone()
}


/// What one market's books keep frozen for `(u, a)`.
pub open spec fn market_contrib(m: Market, u: u32, a: u32) -> int {
    (if m.base == a {
        user_frozen(m.asks@, u)
    } else {
        0
    }) + (if m.quote == a {
        user_frozen(m.bids@, u)
    } else {
        0
    })
}

/// How many orders `u` has resting across all of `ms`.
pub open spec fn total_open_orders(ms: Seq<Market>, u: u32) -> int
    decreases ms.len(),
{
    if ms.len() == 0 {
        0
    } else {
        total_open_orders(ms.drop_last(), u) + user_order_count(ms.last().asks@, u)
            + user_order_count(ms.last().bids@, u)
    }
}

/// The subsequence of `s` belonging to user `u`, in book order.
pub open spec fn orders_of(s: Seq<Order>, u: u32) -> Seq<Order>
    decreases s.len(),
{
    if s.len() == 0 {
        Seq::empty()
    } else if s.last().user == u {
        orders_of(s.drop_last(), u).push(s.last())
    } else {
        orders_of(s.drop_last(), u)
    }
}

/// What all markets' books together keep frozen for `(u, a)`.
pub open spec fn total_frozen(ms: Seq<Market>, u: u32, a: u32) -> int
    decreases ms.len(),
{
    if ms.len() == 0 {
        0
    } else {
        total_frozen(ms.drop_last(), u, a) + market_contrib(ms.last(), u, a)
    }
}

pub proof fn lemma_total_frozen_update(ms: Seq<Market>, i: int, m2: Market, u: u32, a: u32)
    requires
        0 <= i < ms.len(),
    ensures
        total_frozen(ms.update(i, m2), u, a) == total_frozen(ms, u, a) - market_contrib(
            ms[i],
            u,
            a,
        ) + market_contrib(m2, u, a),
    decreases ms.len(),
{
    let t = ms.update(i, m2);
    if i == ms.len() - 1 {
        assert(t.last() == m2);
        assert(t.drop_last() =~= ms.drop_last());
    } else {
        assert(t.last() == ms.last());
        assert(t.drop_last() =~= ms.drop_last().update(i, m2));
        lemma_total_frozen_update(ms.drop_last(), i, m2, u, a);
    }
}

pub proof fn lemma_total_frozen_push(ms: Seq<Market>, m2: Market, u: u32, a: u32)
    ensures
        total_frozen(ms.push(m2), u, a) == total_frozen(ms, u, a) + market_contrib(m2, u, a),
{
    assert(ms.push(m2).drop_last() =~= ms);
    assert(ms.push(m2).last() == m2);
}

/// With every contribution nonnegative, the total bounds each member.
pub proof fn lemma_total_frozen_member(ms: Seq<Market>, k: int, u: u32, a: u32)
    requires
        0 <= k < ms.len(),
        forall|j: int| 0 <= j < ms.len() ==> #[trigger] market_contrib(ms[j], u, a) >= 0,
    ensures
        total_frozen(ms, u, a) >= market_contrib(ms[k], u, a),
        total_frozen(ms, u, a) >= 0,
    decreases ms.len(),
{
    if ms.len() > 0 {
        assert(forall|j: int|
            0 <= j < ms.drop_last().len() ==> #[trigger] market_contrib(ms.drop_last()[j], u, a)
                >= 0);
        if k == ms.len() - 1 {
            lemma_total_frozen_nonneg(ms.drop_last(), u, a);
        } else {
            lemma_total_frozen_member(ms.drop_last(), k, u, a);
        }
    }
}

pub proof fn lemma_total_frozen_nonneg(ms: Seq<Market>, u: u32, a: u32)
    requires
        forall|j: int| 0 <= j < ms.len() ==> #[trigger] market_contrib(ms[j], u, a) >= 0,
    ensures
        total_frozen(ms, u, a) >= 0,
    decreases ms.len(),
{
    if ms.len() > 0 {
        assert(forall|j: int|
            0 <= j < ms.drop_last().len() ==> #[trigger] market_contrib(ms.drop_last()[j], u, a)
                >= 0);
        lemma_total_frozen_nonneg(ms.drop_last(), u, a);
    }
}

/// A well-formed market contributes nothing negative.
pub proof fn lemma_contrib_nonneg(m: Market, am: AssetManager, u: u32, a: u32)
    requires
        m.wf(am),
    ensures
        market_contrib(m, u, a) >= 0,
{
    assert(forall|j: int|
        0 <= j < m.asks@.len() ==> (#[trigger] m.asks@[j].frozen.mantissa) >= 0);
    assert(forall|j: int|
        0 <= j < m.bids@.len() ==> (#[trigger] m.bids@[j].frozen.mantissa) >= 0);
    crate::market::lemma_user_frozen_nonneg(m.asks@, u);
    crate::market::lemma_user_frozen_nonneg(m.bids@, u);
}

/// A balance update request as the boundary hands it over.
pub struct BalanceUpdateRequest {
    pub asset: String,
    pub business: String,
    pub business_id: u64,
    pub delta: Decimal,
    pub detail: String,
}

/// An order request as the boundary hands it over.
pub struct OrderPutRequest {
    pub market: String,
    pub order_side: OrderSide,
    pub order_type: OrderType,
    pub amount: Decimal,
    pub price: Decimal,
    pub quote_limit: Decimal,
    pub taker_fee: Decimal,
    pub maker_fee: Decimal,
    pub post_only: bool,
}

pub struct BatchOrderPutRequest {
    pub market: String,
    pub reset: bool,
    pub orders: Vec<OrderPutRequest>,
}

pub struct BatchOrderPutResponse {
    pub success: bool,
    pub error_message: String,
    pub order_ids: Vec<u64>,
}

pub struct OrderCancelRequest {
    pub market: String,
    pub order_id: u64,
}

pub struct OrderCancelAllRequest {
    pub market: String,
}

pub struct TransferRequest {
    pub asset: String,
    pub to: u32,
    pub delta: Decimal,
    pub memo: String,
}

pub struct TransferResponse {
    pub success: bool,
    pub asset: u32,
    pub balance_from: Decimal,
}

/// The verbatim request of one accepted mutating operation.
pub enum OpParams {
    BalanceUpdate(BalanceUpdateRequest),
    OrderPut(OrderPutRequest),
    BatchOrderPut(BatchOrderPutRequest),
    OrderCancel(OrderCancelRequest),
    OrderCancelAll(OrderCancelAllRequest),
    Transfer(TransferRequest),
}

/// One entry of the operation log.
pub struct OperationLog {
    pub id: u64,
    pub time: u64,
    pub user_id: u32,
    pub params: OpParams,
}

/// The single writer that owns all engine state.
pub struct Controller {
    pub settings: Settings,
    pub sequencer: Sequencer,
    pub balance_manager: BalanceManager,
    pub update_controller: BalanceUpdateController,
    pub markets: Vec<Market>,
    pub persistor: MemBasedPersistor,
    pub op_log: Vec<OperationLog>,
    pub service_suspended: bool,
}

impl Controller {
    /// For every user and asset, what the ledger holds frozen is what
    /// the books keep frozen in open orders.
    pub open spec fn coupled(self) -> bool {
        forall|u: u32, a: u32|
            #[trigger] frozen_of(self.balance_manager.entries@, u, a) == total_frozen(
                self.markets@,
                u,
                a,
            )
    }

    pub open spec fn wf(self) -> bool {
        &&& self.balance_manager.wf()
        &&& update_keys_unique(self.update_controller.entries@)
        &&& self.markets@.len() <= u32::MAX
        &&& self.balance_manager.asset_manager.assets@.len() <= u32::MAX
        &&& forall|i: int|
            0 <= i < self.markets@.len() ==> (#[trigger] self.markets@[i]).wf(
                self.balance_manager.asset_manager,
            ) && self.markets@[i].idx == i as u32
        &&& forall|x: int, y: int|
            0 <= x < y < self.markets@.len() ==> self.markets@[x].name@ !== self.markets@[y].name@
        &&& self.coupled()
        &&& forall|i: int|
            0 <= i < self.markets@.len() ==> ids_below(
                (#[trigger] self.markets@[i]).asks@,
                self.sequencer.order_id,
            ) && ids_below(self.markets@[i].bids@, self.sequencer.order_id)
    }

    /// Index of the market with this name.
    pub fn find_market(&self, name: &String) -> (r: Option<usize>)
        ensures
            match r {
                Some(i) => i < self.markets@.len() && self.markets@[i as int].name@ == name@,
                None => forall|i: int|
                    0 <= i < self.markets@.len() ==> (#[trigger] self.markets@[i]).name@ != name@,
            },
    {
        let n = self.markets.len();
        let mut i: usize = 0;
        while i < n
            invariant
                n == self.markets@.len(),
                i <= n,
                forall|j: int| 0 <= j < i ==> (#[trigger] self.markets@[j]).name@ != name@,
            decreases n - i,
        {
            if self.markets[i].name == *name {
                return Some(i);
            }
            i = i + 1;
        }
        None
    }

    /// Whether mutating operations are currently accepted: no sink
    /// signals backpressure and every id stream can still issue.
    pub fn check_service_available(&self) -> (r: bool)
        ensures
            r == (!self.service_suspended && self.sequencer.order_id < u64::MAX
                && self.sequencer.trade_id < u64::MAX && self.sequencer.operation_log_id
                < u64::MAX),
    {
        !self.service_suspended && self.sequencer.can_issue()
    }

    /// Builds a controller from settings: the asset catalog, an empty
    /// ledger, and one empty market per configured entry.
    pub fn new(settings: Settings) -> (r: Result<Controller, EngineError>)
        ensures
            r is Err ==> r == Err::<Controller, EngineError>(EngineError::InvalidArgument),
            r is Ok ==> r->Ok_0.wf() && r->Ok_0.op_log@.len() == 0
                && r->Ok_0.persistor.messages@.len() == 0 && r->Ok_0.sequencer
                == Sequencer::spec_fresh() && !r->Ok_0.service_suspended,
            r is Ok ==> ({
                let c = r->Ok_0;
                let am = c.balance_manager.asset_manager.assets@;
                &&& am.len() == settings.assets@.len()
                &&& (forall|i: int| 0 <= i < am.len() ==> (#[trigger] am[i])@ == settings.assets@[i]@)
                &&& c.balance_manager.entries@.len() == 0
                &&& c.markets@.len() == settings.markets@.len()
                &&& (forall|i: int|
                    0 <= i < c.markets@.len() ==> ({
                        let m = #[trigger] c.markets@[i];
                        let e = settings.markets@[i];
                        &&& m.name@ == e.name@
                        &&& am[m.base as int].id@ == e.base@
                        &&& am[m.quote as int].id@ == e.quote@
                        &&& m.amount_prec == e.amount_prec
                        &&& m.price_prec == e.price_prec
                        &&& m.fee_prec == e.fee_prec
                        &&& m.min_amount == e.min_amount
                        &&& m.asks@.len() == 0
                        &&& m.bids@.len() == 0
                        &&& m.trade_count == 0
                        &&& m.price.mantissa == 0
                    }))
                &&& c.settings == settings
            }),
    {
        if settings.assets.len() > u32::MAX as usize {
            return Err(EngineError::InvalidArgument);
        }
        let assets = duplicate_assets(&settings.assets);
        let balance_manager = match BalanceManager::new(assets) {
            Ok(b) => b,
            Err(e) => {
                return Err(e);
            },
        };
        let mut markets: Vec<Market> = Vec::new();
        let n = settings.markets.len();
        let mut i: usize = 0;
        while i < n
            invariant
                n == settings.markets@.len(),
                i <= n,
                markets@.len() == i,
                i <= u32::MAX,
                balance_manager.wf(),
                balance_manager.asset_manager.assets@.len() == settings.assets@.len(),
                forall|j: int|
                    0 <= j < balance_manager.asset_manager.assets@.len()
                        ==> (#[trigger] balance_manager.asset_manager.assets@[j])@
                        == settings.assets@[j]@,
                balance_manager.entries@.len() == 0,
                forall|j: int|
                    0 <= j < markets@.len() ==> (#[trigger] markets@[j]).wf(
                        balance_manager.asset_manager,
                    ) && markets@[j].idx == j as u32 && markets@[j].asks@.len() == 0
                        && markets@[j].bids@.len() == 0 && markets@[j].trade_count == 0
                        && markets@[j].price.mantissa == 0,
                forall|j: int|
                    0 <= j < markets@.len() ==> ({
                        let m = #[trigger] markets@[j];
                        let e = settings.markets@[j];
                        m.name@ == e.name@ && balance_manager.asset_manager.assets@[m.base as int].id@
                            == e.base@ && balance_manager.asset_manager.assets@[m.quote as int].id@
                            == e.quote@ && m.amount_prec == e.amount_prec && m.price_prec
                            == e.price_prec && m.fee_prec == e.fee_prec && m.min_amount
                            == e.min_amount
                    }),
                forall|x: int, y: int| 0 <= x < y < markets@.len() ==> markets@[x].name@
                    !== markets@[y].name@,
            decreases n - i,
        {
            if i >= u32::MAX as usize {
                return Err(EngineError::InvalidArgument);
            }
            let mut j: usize = 0;
            while j < i
                invariant
                    i < n,
                    n == settings.markets@.len(),
                    j <= i,
                    markets@.len() == i,
                    forall|y: int|
                        0 <= y < j ==> (#[trigger] settings.markets@[y]).name@
                            !== settings.markets@[i as int].name@,
                decreases i - j,
            {
                if settings.markets[j].name == settings.markets[i].name {
                    return Err(EngineError::InvalidArgument);
                }
                j = j + 1;
            }
            let m = match Market::new(&settings.markets[i], i as u32, &balance_manager.asset_manager) {
                Ok(m) => m,
                Err(e) => {
                    return Err(e);
                },
            };
            markets.push(m);
            i = i + 1;
        }
        let c = Controller {
            settings,
            sequencer: Sequencer { order_id: 1, trade_id: 1, operation_log_id: 1 },
            balance_manager,
            update_controller: BalanceUpdateController::new(),
            markets,
            persistor: MemBasedPersistor::new(),
            op_log: Vec::new(),
            service_suspended: false,
        };
        proof {
            assert forall|u: u32, a: u32|
                #[trigger] frozen_of(c.balance_manager.entries@, u, a) == total_frozen(
                    c.markets@,
                    u,
                    a,
                ) by {
                lemma_total_frozen_empty(c.markets@, u, a);
            }
        }
        Ok(c)
    }
}


impl Controller {
    /// How many orders `user_id` has resting across all markets.
    pub fn total_user_orders(&self, user_id: u32) -> (r: u64)
        requires
            self.wf(),
        ensures
            r == total_open_orders(self.markets@, user_id),
    {
        let n = self.markets.len();
        let mut acc: u64 = 0;
        let mut i: usize = 0;
        while i < n
            invariant
                self.wf(),
                n == self.markets@.len(),
                i <= n,
                acc <= (i as u64) * 2_000_000_000,
                acc == total_open_orders(self.markets@.take(i as int), user_id),
            decreases n - i,
        {
            proof {
                assert(self.markets@.take(i + 1).drop_last() =~= self.markets@.take(i as int));
                assert(self.markets@.take(i + 1).last() == self.markets@[i as int]);
                assert(self.markets@[i as int].wf(self.balance_manager.asset_manager));
                crate::market::lemma_user_order_count_bound(self.markets@[i as int].asks@, user_id);
                crate::market::lemma_user_order_count_bound(self.markets@[i as int].bids@, user_id);
                vstd::arithmetic::mul::lemma_mul_inequality(
                    i as int,
                    n as int,
                    2_000_000_000,
                );
                assert((n as u64) <= u32::MAX as u64);
                vstd::arithmetic::mul::lemma_mul_upper_bound(
                    i as int,
                    0xffff_ffff,
                    2_000_000_000,
                    2_000_000_000,
                );
            }
            let c = self.markets[i].get_order_num_of_user(user_id);
            acc = acc + (c as u64);
            proof {
                vstd::arithmetic::mul::lemma_mul_is_distributive_add_other_way(
                    2_000_000_000,
                    i as int,
                    1,
                );
            }
            i = i + 1;
        }
        proof {
            assert(self.markets@.take(n as int) =~= self.markets@);
        }
        acc
    }

    /// Places one order in the named market, guarded by the per-user
    /// open-order cap.  In real mode the resulting events are recorded;
    /// replay records nothing.
    #[verifier::rlimit(100)]
    #[verifier::spinoff_prover]
    fn put_order(&mut self, real_mode: bool, req: &OrderPutRequest, user_id: u32, now: u64) -> (r:
        Result<Order, EngineError>)
        requires
            old(self).wf(),
            old(self).sequencer.order_id < u64::MAX,
        ensures
            final(self).wf(),
            final(self).op_log@ == old(self).op_log@,
            final(self).settings == old(self).settings,
            final(self).sequencer.operation_log_id == old(self).sequencer.operation_log_id,
            final(self).sequencer.trade_id >= old(self).sequencer.trade_id,
            !real_mode ==> final(self).persistor.messages@ == old(self).persistor.messages@,
            forall|k: int|
                0 <= k < old(self).persistor.messages@.len()
                    ==> #[trigger] final(self).persistor.messages@[k] == old(
                    self,
                ).persistor.messages@[k],
            old(self).persistor.messages@.len() <= final(self).persistor.messages@.len(),
            r is Err ==> (r == Err::<Order, EngineError>(EngineError::InvalidArgument) || r
                == Err::<Order, EngineError>(EngineError::Internal) || r == Err::<
                Order,
                EngineError,
            >(EngineError::InsufficientBalance) || r == Err::<Order, EngineError>(
                EngineError::TooManyActiveOrders,
            )),
            r is Err ==> final(self).persistor.messages@ == old(self).persistor.messages@,
            r is Err ==> final(self).sequencer.trade_id == old(self).sequencer.trade_id,
            forall|k: int|
                old(self).persistor.messages@.len() <= k < final(self).persistor.messages@.len()
                    && (#[trigger] final(self).persistor.messages@[k]) is TradeMessage
                    ==> trade_sane(
                    final(self).persistor.messages@[k]->TradeMessage_0,
                    old(self).markets@[market_index(old(self).markets@, req.market@)].idx,
                ),
            ({
                let mk = has_market(old(self).markets@, req.market@);
                let mi = market_index(old(self).markets@, req.market@);
                let m0 = old(self).markets@[mi];
                let acceptable = m0.order_acceptable(
                    req.order_side,
                    req.order_type,
                    req.amount,
                    req.price,
                    req.quote_limit,
                    req.taker_fee,
                    req.maker_fee,
                    req.post_only,
                    old(self).settings.disable_market_order,
                );
                let capped = total_open_orders(old(self).markets@, user_id) >= old(
                    self,
                ).settings.user_order_num_limit as int;
                let full = m0.asks@.len() + m0.bids@.len() >= crate::market::BOOK_CAP;
                let freeze = m0.freeze_amount_of(req.order_side, req.amount, req.price);
                let fasset = m0.frozen_asset(req.order_side);
                &&& (r == Err::<Order, EngineError>(EngineError::TooManyActiveOrders) <==> (mk
                    && capped))
                &&& (!(mk && capped) ==> (r == Err::<Order, EngineError>(
                    EngineError::InvalidArgument,
                ) <==> (!mk || !acceptable)))
                &&& (mk && !capped && acceptable ==> (r == Err::<Order, EngineError>(
                    EngineError::Internal,
                ) <==> full))
                &&& (mk && !capped && acceptable && !full ==> (r == Err::<Order, EngineError>(
                    EngineError::InsufficientBalance,
                ) <==> (req.order_type == OrderType::LIMIT && avail_of(
                    old(self).balance_manager.entries@,
                    user_id,
                    fasset,
                ) < freeze)))
                &&& (r is Err ==> final(self).markets@ == old(self).markets@
                    && final(self).balance_manager.entries@ == old(self).balance_manager.entries@
                    && final(self).sequencer.order_id == old(self).sequencer.order_id)
                &&& (r is Ok ==> ({
                    let o = r->Ok_0;
                    let mn = final(self).markets@[mi];
                    &&& crate::order::order_wf(o)
                    &&& o.id == old(self).sequencer.order_id
                    &&& final(self).sequencer.order_id == old(self).sequencer.order_id + 1
                    &&& o.user == user_id
                    &&& o.market == m0.idx
                    &&& o.side == req.order_side
                    &&& o.type_ == req.order_type
                    &&& o.post_only == req.post_only
                    &&& o.price == req.price
                    &&& o.amount.mantissa == round_half_at(
                        req.amount.mantissa as int,
                        m0.amount_prec as nat,
                    )
                    &&& o.maker_fee == req.maker_fee
                    &&& o.taker_fee == req.taker_fee
                    &&& o.create_time == now
                    &&& o.finished_base.mantissa + o.remain.mantissa == o.amount.mantissa
                    &&& final(self).markets@.len() == old(self).markets@.len()
                    &&& (forall|k: int|
                        0 <= k < old(self).markets@.len() && k != mi
                            ==> #[trigger] final(self).markets@[k] == old(self).markets@[k])
                    &&& ((o.type_ == OrderType::LIMIT && o.remain.mantissa > 0
                        && o.frozen.mantissa > 0) <==> (if req.order_side == OrderSide::ASK {
                        exists|j: int| 0 <= j < mn.asks@.len() && mn.asks@[j] == o
                    } else {
                        exists|j: int| 0 <= j < mn.bids@.len() && mn.bids@[j] == o
                    }))
                    &&& (o.type_ == OrderType::MARKET ==> (o.remain.mantissa == 0 || (if o.side
                        == OrderSide::ASK {
                        mn.bids@.len() == 0
                    } else {
                        mn.asks@.len() == 0
                    }) || market_taker_starved(
                        mn,
                        final(self).balance_manager,
                        o,
                        req.quote_limit,
                    ) || matching_resources_exhausted(
                        mn,
                        final(self).balance_manager,
                        final(self).sequencer,
                        o,
                    )))
                    &&& (o.type_ == OrderType::LIMIT && !o.post_only && o.remain.mantissa > 0
                        && o.frozen.mantissa == 0 ==> matching_resources_exhausted(
                        mn,
                        final(self).balance_manager,
                        final(self).sequencer,
                        o,
                    ))
                    &&& (o.type_ == OrderType::LIMIT && o.post_only && o.remain.mantissa > 0
                        && o.frozen.mantissa == 0 ==> (matching_resources_exhausted(
                        mn,
                        final(self).balance_manager,
                        final(self).sequencer,
                        o,
                    ) || (if req.order_side == OrderSide::ASK {
                        m0.bids@.len() > 0 && req.price.mantissa <= m0.bids@[0].price.mantissa
                            && mn.bids@ == m0.bids@
                    } else {
                        m0.asks@.len() > 0 && req.price.mantissa >= m0.asks@[0].price.mantissa
                            && mn.asks@ == m0.asks@
                    })))
                    &&& (forall|u: u32|
                        #[trigger] frozen_of(final(self).balance_manager.entries@, u, m0.base)
                            - frozen_of(old(self).balance_manager.entries@, u, m0.base)
                            == user_frozen(mn.asks@, u) - user_frozen(m0.asks@, u))
                    &&& (forall|u: u32|
                        #[trigger] frozen_of(final(self).balance_manager.entries@, u, m0.quote)
                            - frozen_of(old(self).balance_manager.entries@, u, m0.quote)
                            == user_frozen(mn.bids@, u) - user_frozen(m0.bids@, u))
                    &&& (forall|u2: u32, a2: u32|
                        a2 != m0.base && a2 != m0.quote ==> #[trigger] frozen_of(
                            final(self).balance_manager.entries@,
                            u2,
                            a2,
                        ) == frozen_of(old(self).balance_manager.entries@, u2, a2))
                    &&& (forall|u2: u32, a2: u32|
                        a2 != m0.base && a2 != m0.quote ==> #[trigger] avail_of(
                            final(self).balance_manager.entries@,
                            u2,
                            a2,
                        ) == avail_of(old(self).balance_manager.entries@, u2, a2))
                }))
            }),
    {
        let midx = match self.find_market(&req.market) {
            Some(i) => i,
            None => {
                return Err(EngineError::InvalidArgument);
            },
        };
        proof {
            lemma_market_index_unique(self.markets@, req.market@, midx as int);
        }
        let cnt = self.total_user_orders(user_id);
        if cnt >= self.settings.user_order_num_limit as u64 {
            return Err(EngineError::TooManyActiveOrders);
        }
        let input = OrderInput {
            user_id,
            side: req.order_side,
            type_: req.order_type,
            amount: req.amount,
            price: req.price,
            quote_limit: req.quote_limit,
            taker_fee: req.taker_fee,
            maker_fee: req.maker_fee,
            market: clone_string_c(&req.market),
            post_only: req.post_only,
        };
        let disable_self_trade = self.settings.disable_self_trade;
        let disable_market_order = self.settings.disable_market_order;
        let ghost old_markets = self.markets@;
        let ghost old_bm = self.balance_manager;
        proof {
            assert(self.markets@[midx as int].wf(self.balance_manager.asset_manager));
            assert forall|j: int|
                0 <= j < self.markets@.len() implies #[trigger] market_contrib(
                self.markets@[j],
                user_id,
                self.markets@[midx as int].base,
            ) >= 0 by {
                lemma_contrib_nonneg(
                    self.markets@[j],
                    self.balance_manager.asset_manager,
                    user_id,
                    self.markets@[midx as int].base,
                );
            }
        }
        let mut msgs: Vec<Message> = Vec::new();
        let ghost midx_i = midx as int;
        proof {
            let m0 = self.markets@[midx_i];
            assert forall|u2: u32|
                #[trigger] frozen_of(self.balance_manager.entries@, u2, m0.base) >= user_frozen(
                    m0.asks@,
                    u2,
                ) by {
                assert forall|j: int|
                    0 <= j < self.markets@.len() implies #[trigger] market_contrib(
                    self.markets@[j],
                    u2,
                    m0.base,
                ) >= 0 by {
                    lemma_contrib_nonneg(
                        self.markets@[j],
                        self.balance_manager.asset_manager,
                        u2,
                        m0.base,
                    );
                }
                lemma_total_frozen_member(self.markets@, midx_i, u2, m0.base);
                assert(market_contrib(m0, u2, m0.base) >= user_frozen(m0.asks@, u2)) by {
                    lemma_contrib_nonneg(m0, self.balance_manager.asset_manager, u2, m0.base);
                    assert(forall|j: int|
                        0 <= j < m0.bids@.len() ==> (#[trigger] m0.bids@[j].frozen.mantissa) >= 0);
                    crate::market::lemma_user_frozen_nonneg(m0.bids@, u2);
                }
            }
            assert forall|u2: u32|
                #[trigger] frozen_of(self.balance_manager.entries@, u2, m0.quote) >= user_frozen(
                    m0.bids@,
                    u2,
                ) by {
                assert forall|j: int|
                    0 <= j < self.markets@.len() implies #[trigger] market_contrib(
                    self.markets@[j],
                    u2,
                    m0.quote,
                ) >= 0 by {
                    lemma_contrib_nonneg(
                        self.markets@[j],
                        self.balance_manager.asset_manager,
                        u2,
                        m0.quote,
                    );
                }
                lemma_total_frozen_member(self.markets@, midx_i, u2, m0.quote);
                assert(market_contrib(m0, u2, m0.quote) >= user_frozen(m0.bids@, u2)) by {
                    lemma_contrib_nonneg(m0, self.balance_manager.asset_manager, u2, m0.quote);
                    assert(forall|j: int|
                        0 <= j < m0.asks@.len() ==> (#[trigger] m0.asks@[j].frozen.mantissa) >= 0);
                    crate::market::lemma_user_frozen_nonneg(m0.asks@, u2);
                }
            }
        }
        let mref = &mut self.markets[midx];
        let result = mref.put_order(
            &mut self.sequencer,
            &mut self.balance_manager,
            &mut msgs,
            &input,
            now,
            disable_self_trade,
            disable_market_order,
        );
        proof {
            if result is Err {
                assert(self.markets@ =~= old_markets);
            }
            let mN = self.markets@[midx_i];
            let m0 = old_markets[midx_i];
            assert(self.markets@ == old_markets.update(midx_i, mN));
            assert forall|u2: u32, a2: u32|
                #[trigger] frozen_of(self.balance_manager.entries@, u2, a2) == total_frozen(
                    self.markets@,
                    u2,
                    a2,
                ) by {
                lemma_total_frozen_update(old_markets, midx_i, mN, u2, a2);
                if a2 == m0.base {
                    assert(frozen_of(self.balance_manager.entries@, u2, a2) - frozen_of(
                        old_bm.entries@,
                        u2,
                        a2,
                    ) == user_frozen(mN.asks@, u2) - user_frozen(m0.asks@, u2));
                    assert(mN.bids@ == m0.bids@ || a2 != m0.quote);
                    if a2 == m0.quote {
                    } else {
                        assert(market_contrib(mN, u2, a2) - market_contrib(m0, u2, a2)
                            == user_frozen(mN.asks@, u2) - user_frozen(m0.asks@, u2));
                    }
                } else if a2 == m0.quote {
                    assert(frozen_of(self.balance_manager.entries@, u2, a2) - frozen_of(
                        old_bm.entries@,
                        u2,
                        a2,
                    ) == user_frozen(mN.bids@, u2) - user_frozen(m0.bids@, u2));
                    assert(market_contrib(mN, u2, a2) - market_contrib(m0, u2, a2)
                        == user_frozen(mN.bids@, u2) - user_frozen(m0.bids@, u2));
                } else {
                    assert(frozen_of(self.balance_manager.entries@, u2, a2) == frozen_of(
                        old_bm.entries@,
                        u2,
                        a2,
                    ));
                    assert(market_contrib(mN, u2, a2) == market_contrib(m0, u2, a2));
                }
            }
            assert forall|i: int|
                0 <= i < self.markets@.len() implies (#[trigger] self.markets@[i]).wf(
                self.balance_manager.asset_manager,
            ) && self.markets@[i].idx == i as u32 by {
                if i != midx_i {
                    assert(self.markets@[i] == old_markets[i]);
                    assert(old_markets[i].wf(old_bm.asset_manager));
                }
            }
            assert forall|i: int|
                0 <= i < self.markets@.len() implies ids_below(
                (#[trigger] self.markets@[i]).asks@,
                self.sequencer.order_id,
            ) && ids_below(self.markets@[i].bids@, self.sequencer.order_id) by {
                if i != midx_i {
                    assert(self.markets@[i] == old_markets[i]);
                    assert(ids_below(old_markets[i].asks@, old(self).sequencer.order_id));
                    assert(ids_below(old_markets[i].bids@, old(self).sequencer.order_id));
                    assert(old(self).sequencer.order_id <= self.sequencer.order_id);
                }
            }
        }
        if real_mode {
            let ghost pmsgs0 = self.persistor.messages@;
            let ghost mseq = msgs@;
            self.persistor.messages.append(&mut msgs);
            proof {
                assert forall|k: int|
                    pmsgs0.len() <= k < self.persistor.messages@.len() && (
                    #[trigger] self.persistor.messages@[k]) is TradeMessage implies trade_sane(
                    self.persistor.messages@[k]->TradeMessage_0,
                    old_markets[midx_i].idx,
                ) by {
                    assert(self.persistor.messages@[k] == mseq[k - pmsgs0.len()]);
                }
            }
        }
        result
    }

    /// The current price of the first listed market that trades
    /// `asset` against the asset whose id reads `USDT`, recorded on
    /// balance-history events; zero when no such market is listed.
    fn price_against_usdt(&self, asset: u32) -> (r: Decimal)
        requires
            self.wf(),
        ensures
            (forall|j: int|
                0 <= j < self.markets@.len() ==> !quotes_in_usdt(
                    #[trigger] self.markets@[j],
                    self.balance_manager.asset_manager.assets@,
                    asset,
                )) ==> r.mantissa == 0,
            (exists|j: int|
                0 <= j < self.markets@.len() && quotes_in_usdt(
                    #[trigger] self.markets@[j],
                    self.balance_manager.asset_manager.assets@,
                    asset,
                )) ==> (exists|j: int|
                {
                    &&& 0 <= j < self.markets@.len()
                    &&& quotes_in_usdt(
                        #[trigger] self.markets@[j],
                        self.balance_manager.asset_manager.assets@,
                        asset,
                    )
                    &&& r == self.markets@[j].price
                    &&& (forall|k: int|
                        0 <= k < j ==> !quotes_in_usdt(
                            #[trigger] self.markets@[k],
                            self.balance_manager.asset_manager.assets@,
                            asset,
                        ))
                }),
    {
        let usdt: String = "USDT".to_owned();
        let n = self.markets.len();
        let mut i: usize = 0;
        while i < n
            invariant
                n == self.markets@.len(),
                i <= n,
                self.wf(),
                usdt@ == "USDT"@,
                forall|k: int|
                    0 <= k < i ==> !quotes_in_usdt(
                        #[trigger] self.markets@[k],
                        self.balance_manager.asset_manager.assets@,
                        asset,
                    ),
            decreases n - i,
        {
            let m = &self.markets[i];
            if m.base == asset {
                let q = m.quote as usize;
                if self.balance_manager.asset_manager.assets[q].id == usdt {
                    return m.price;
                }
            }
            i = i + 1;
        }
        Decimal { mantissa: 0 }
    }

    /// Appends one operation-log entry under the next log id.
    fn append_operation_log(&mut self, user_id: u32, params: OpParams, now: u64)
        requires
            old(self).sequencer.operation_log_id < u64::MAX,
        ensures
            final(self).op_log@ == old(self).op_log@.push(
                OperationLog {
                    id: old(self).sequencer.operation_log_id,
                    time: now,
                    user_id,
                    params,
                },
            ),
            final(self).sequencer.operation_log_id == old(self).sequencer.operation_log_id + 1,
            final(self).sequencer.order_id == old(self).sequencer.order_id,
            final(self).sequencer.trade_id == old(self).sequencer.trade_id,
            final(self).balance_manager == old(self).balance_manager,
            final(self).markets == old(self).markets,
            final(self).update_controller == old(self).update_controller,
            final(self).persistor == old(self).persistor,
            final(self).settings == old(self).settings,
            final(self).service_suspended == old(self).service_suspended,
            old(self).wf() ==> final(self).wf(),
    {
        let id = self.sequencer.next_operation_log_id();
        self.op_log.push(OperationLog { id, time: now, user_id, params });
    }

    /// The full order-placing operation: service gate, matching, events,
    /// and one log entry when accepted in real mode.
    pub fn order_put(&mut self, real_mode: bool, req: OrderPutRequest, user_id: u32, now: u64) -> (
        r: Result<Order, EngineError>)
        requires
            old(self).wf(),
        ensures
            final(self).wf(),
            order_put_effect(
                *old(self),
                *final(self),
                req.market@,
                req.order_side,
                req.order_type,
                req.amount,
                req.price,
                req.quote_limit,
                req.taker_fee,
                req.maker_fee,
                req.post_only,
                user_id,
                now,
                real_mode,
                r,
            ),
            real_mode && r is Ok ==> final(self).op_log@ == old(self).op_log@.push(
                OperationLog {
                    id: old(self).sequencer.operation_log_id,
                    time: now,
                    user_id,
                    params: OpParams::OrderPut(req),
                },
            ),
    {
        if !self.check_service_available() {
            return Err(EngineError::ServiceUnavailable);
        }
        let r = self.put_order(real_mode, &req, user_id, now);
        match r {
            Ok(o) => {
                if real_mode {
                    self.append_operation_log(user_id, OpParams::OrderPut(req), now);
                }
                Ok(o)
            },
            Err(e) => Err(e),
        }
    }

    /// Cancels one resting order of `user_id`.
    #[verifier::rlimit(100)]
    #[verifier::spinoff_prover]
    pub fn order_cancel(
        &mut self,
        real_mode: bool,
        req: OrderCancelRequest,
        user_id: u32,
        now: u64,
    ) -> (r: Result<Order, EngineError>)
        requires
            old(self).wf(),
        ensures
            final(self).wf(),
            order_cancel_effect(
                *old(self),
                *final(self),
                req.market@,
                req.order_id,
                user_id,
                real_mode,
                r,
            ),
            real_mode && r is Ok ==> final(self).op_log@ == old(self).op_log@.push(
                OperationLog {
                    id: old(self).sequencer.operation_log_id,
                    time: now,
                    user_id,
                    params: OpParams::OrderCancel(req),
                },
            ),
    {
        if !self.check_service_available() {
            return Err(EngineError::ServiceUnavailable);
        }
        let midx = match self.find_market(&req.market) {
            Some(i) => i,
            None => {
                return Err(EngineError::InvalidArgument);
            },
        };
        proof {
            lemma_market_index_unique(self.markets@, req.market@, midx as int);
            assert(self.markets@[midx as int].wf(self.balance_manager.asset_manager));
        }
        let existing = self.markets[midx].get(req.order_id);
        match existing {
            None => {
                return Err(EngineError::NotFound);
            },
            Some(o) => {
                if o.user != user_id {
                    return Err(EngineError::InvalidArgument);
                }
            },
        }
        let ghost old_markets = self.markets@;
        let ghost old_bm = self.balance_manager;
        let ghost midx_i = midx as int;
        proof {
            assert(self.markets@[midx_i].wf(self.balance_manager.asset_manager));
            lemma_market_freeze_cover(
                self.markets@,
                midx_i,
                self.balance_manager.entries@,
                self.balance_manager.asset_manager,
            );
        }
        let mut msgs: Vec<Message> = Vec::new();
        let mref = &mut self.markets[midx];
        let result = mref.cancel(&mut self.balance_manager, &mut msgs, req.order_id);
        let order = match result {
            Ok(o) => o,
            Err(e) => {
                proof {
                    assert(self.markets@ =~= old_markets);
                }
                return Err(e);
            },
        };
        proof {
            let mn = self.markets@[midx_i];
            assert(self.markets@ == old_markets.update(midx_i, mn));
            lemma_recouple(
                old_markets,
                midx_i,
                mn,
                old_bm.entries@,
                self.balance_manager.entries@,
            );
            assert forall|i: int|
                0 <= i < self.markets@.len() implies (#[trigger] self.markets@[i]).wf(
                self.balance_manager.asset_manager,
            ) && self.markets@[i].idx == i as u32 by {
                if i != midx_i {
                    assert(self.markets@[i] == old_markets[i]);
                    assert(old_markets[i].wf(old_bm.asset_manager));
                }
            }
            assert forall|i: int|
                0 <= i < self.markets@.len() implies ids_below(
                (#[trigger] self.markets@[i]).asks@,
                self.sequencer.order_id,
            ) && ids_below(self.markets@[i].bids@, self.sequencer.order_id) by {
                if i != midx_i {
                    assert(self.markets@[i] == old_markets[i]);
                } else {
                    assert forall|j: int|
                        0 <= j < mn.asks@.len() implies (#[trigger] mn.asks@[j].id)
                        < self.sequencer.order_id by {
                        assert(crate::market::has_order_id(mn.asks@, mn.asks@[j].id));
                        if mn.asks@ == old_markets[midx_i].asks@ {
                        } else {
                            assert(mn.asks@ == old_markets[midx_i].asks@.remove(
                                crate::market::index_of_order(
                                    old_markets[midx_i].asks@,
                                    req.order_id,
                                ),
                            ));
                        }
                    }
                    assert forall|j: int|
                        0 <= j < mn.bids@.len() implies (#[trigger] mn.bids@[j].id)
                        < self.sequencer.order_id by {
                        if mn.bids@ == old_markets[midx_i].bids@ {
                        } else {
                            assert(mn.bids@ == old_markets[midx_i].bids@.remove(
                                crate::market::index_of_order(
                                    old_markets[midx_i].bids@,
                                    req.order_id,
                                ),
                            ));
                        }
                    }
                }
            }
        }
        if real_mode {
            self.persistor.messages.append(&mut msgs);
            self.append_operation_log(user_id, OpParams::OrderCancel(req), now);
        }
        Ok(order)
    }

    /// Cancels every resting order of `user_id` in the market at
    /// `midx` and, in real mode, records the cancellation events; no
    /// journal entry is written here.
    #[verifier::rlimit(100)]
    #[verifier::spinoff_prover]
    fn sweep_user_orders(&mut self, real_mode: bool, midx: usize, user_id: u32) -> (count: usize)
        requires
            old(self).wf(),
            midx < old(self).markets@.len(),
        ensures
            final(self).wf(),
            cancel_sweep_effect(
                *old(self),
                *final(self),
                midx as int,
                user_id,
                real_mode,
                count as int,
            ),
    {
        let ghost old_markets = self.markets@;
        let ghost old_bm = self.balance_manager;
        let ghost midx_i = midx as int;
        proof {
            assert(self.markets@[midx_i].wf(self.balance_manager.asset_manager));
            lemma_market_freeze_cover(
                self.markets@,
                midx_i,
                self.balance_manager.entries@,
                self.balance_manager.asset_manager,
            );
        }
        let mut msgs: Vec<Message> = Vec::new();
        let mref = &mut self.markets[midx];
        let total = mref.cancel_all_for_user(&mut self.balance_manager, &mut msgs, user_id);
        proof {
            let mn = self.markets@[midx_i];
            let m0 = old_markets[midx_i];
            assert(self.markets@ == old_markets.update(midx_i, mn));
            assert forall|u2: u32|
                #[trigger] frozen_of(self.balance_manager.entries@, u2, mn.base) - frozen_of(
                    old_bm.entries@,
                    u2,
                    mn.base,
                ) == user_frozen(mn.asks@, u2) - user_frozen(m0.asks@, u2) by {
                if u2 != user_id {
                    assert(user_frozen(mn.asks@, u2) == user_frozen(m0.asks@, u2));
                    assert(user_frozen(mn.bids@, u2) == user_frozen(m0.bids@, u2));
                }
            }
            assert forall|u2: u32|
                #[trigger] frozen_of(self.balance_manager.entries@, u2, mn.quote) - frozen_of(
                    old_bm.entries@,
                    u2,
                    mn.quote,
                ) == user_frozen(mn.bids@, u2) - user_frozen(m0.bids@, u2) by {
                if u2 != user_id {
                    assert(user_frozen(mn.asks@, u2) == user_frozen(m0.asks@, u2));
                    assert(user_frozen(mn.bids@, u2) == user_frozen(m0.bids@, u2));
                }
            }
            lemma_recouple(
                old_markets,
                midx_i,
                mn,
                old_bm.entries@,
                self.balance_manager.entries@,
            );
            assert forall|i: int|
                0 <= i < self.markets@.len() implies (#[trigger] self.markets@[i]).wf(
                self.balance_manager.asset_manager,
            ) && self.markets@[i].idx == i as u32 by {
                if i != midx_i {
                    assert(self.markets@[i] == old_markets[i]);
                    assert(old_markets[i].wf(old_bm.asset_manager));
                }
            }
            assert forall|i: int|
                0 <= i < self.markets@.len() implies ids_below(
                (#[trigger] self.markets@[i]).asks@,
                self.sequencer.order_id,
            ) && ids_below(self.markets@[i].bids@, self.sequencer.order_id) by {
                if i != midx_i {
                    assert(self.markets@[i] == old_markets[i]);
                } else {
                    assert forall|j: int|
                        0 <= j < mn.asks@.len() implies (#[trigger] mn.asks@[j].id)
                        < self.sequencer.order_id by {
                        assert(crate::market::has_order_id(mn.asks@, mn.asks@[j].id));
                        assert(crate::market::has_order_id(m0.asks@, mn.asks@[j].id));
                        let w = choose|w: int|
                            0 <= w < m0.asks@.len() && m0.asks@[w].id == mn.asks@[j].id;
                        assert(m0.asks@[w].id < self.sequencer.order_id);
                    }
                    assert forall|j: int|
                        0 <= j < mn.bids@.len() implies (#[trigger] mn.bids@[j].id)
                        < self.sequencer.order_id by {
                        assert(crate::market::has_order_id(mn.bids@, mn.bids@[j].id));
                        assert(crate::market::has_order_id(m0.bids@, mn.bids@[j].id));
                        let w = choose|w: int|
                            0 <= w < m0.bids@.len() && m0.bids@[w].id == mn.bids@[j].id;
                        assert(m0.bids@[w].id < self.sequencer.order_id);
                    }
                }
            }
        }
        if real_mode {
            self.persistor.messages.append(&mut msgs);
        }
        total
    }

    /// Cancels every resting order of `user_id` in one market; yields
    /// how many were cancelled.
    pub fn order_cancel_all(
        &mut self,
        real_mode: bool,
        req: OrderCancelAllRequest,
        user_id: u32,
        now: u64,
    ) -> (r: Result<usize, EngineError>)
        requires
            old(self).wf(),
        ensures
            final(self).wf(),
            order_cancel_all_effect(
                *old(self),
                *final(self),
                req.market@,
                user_id,
                real_mode,
                r,
            ),
            real_mode && r is Ok ==> final(self).op_log@ == old(self).op_log@.push(
                OperationLog {
                    id: old(self).sequencer.operation_log_id,
                    time: now,
                    user_id,
                    params: OpParams::OrderCancelAll(req),
                },
            ),
    {
        if !self.check_service_available() {
            return Err(EngineError::ServiceUnavailable);
        }
        let midx = match self.find_market(&req.market) {
            Some(i) => i,
            None => {
                return Err(EngineError::InvalidArgument);
            },
        };
        proof {
            lemma_market_index_unique(self.markets@, req.market@, midx as int);
        }
        let total = self.sweep_user_orders(real_mode, midx, user_id);
        if real_mode {
            self.append_operation_log(user_id, OpParams::OrderCancelAll(req), now);
        }
        Ok(total)
    }

    /// Applies one deposit or withdrawal: the idempotent balance change
    /// of the update controller rounded at the asset's ledger precision,
    /// one history event, one log entry.
    pub fn update_balance(
        &mut self,
        real_mode: bool,
        req: BalanceUpdateRequest,
        user_id: u32,
        now: u64,
    ) -> (r: Result<(), EngineError>)
        requires
            old(self).wf(),
        ensures
            final(self).wf(),
            balance_update_effect(
                *old(self),
                *final(self),
                req.asset@,
                req.business@,
                req.business_id,
                req.delta,
                user_id,
                real_mode,
                r,
            ),
            real_mode && r is Ok ==> final(self).op_log@ == old(self).op_log@.push(
                OperationLog {
                    id: old(self).sequencer.operation_log_id,
                    time: now,
                    user_id,
                    params: OpParams::BalanceUpdate(req),
                },
            ),
    {
        if !self.check_service_available() {
            return Err(EngineError::ServiceUnavailable);
        }
        if req.delta.mantissa < -MAX_MANTISSA || req.delta.mantissa > MAX_MANTISSA {
            return Err(EngineError::InvalidArgument);
        }
        let aidx = match self.balance_manager.asset_manager.find_asset(&req.asset) {
            Some(i) => i,
            None => {
                return Err(EngineError::InvalidArgument);
            },
        };
        proof {
            crate::asset::lemma_asset_index_unique(
                self.balance_manager.asset_manager.assets@,
                req.asset@,
                aidx as int,
            );
        }
        let business_type = if req.delta.mantissa >= 0 {
            BusinessType::Deposit
        } else {
            BusinessType::Withdraw
        };
        let market_price = self.price_against_usdt(aidx as u32);
        let params = BalanceUpdateParams {
            balance_type: BalanceType::AVAILABLE,
            business_type,
            user_id,
            asset: aidx as u32,
            business: clone_string_c(&req.business),
            business_id: req.business_id,
            market_price,
            change: req.delta,
            detail: clone_string_c(&req.detail),
        };
        let outcome = self.update_controller.update_user_balance(
            &mut self.balance_manager,
            params,
            now,
        );
        match outcome {
            Err(e) => Err(e),
            Ok(history) => {
                proof {
                    lemma_coupling_kept(
                        self.markets@,
                        old(self).balance_manager.entries@,
                        self.balance_manager.entries@,
                    );
                }
                if real_mode {
                    match history {
                        Some(h) => {
                            match business_type {
                                BusinessType::Deposit => self.persistor.put_deposit(h),
                                BusinessType::Withdraw => self.persistor.put_withdraw(h),
                                BusinessType::Transfer => self.persistor.put_balance(h),
                                BusinessType::Trade => self.persistor.put_balance(h),
                            }
                        },
                        None => {},
                    }
                    self.append_operation_log(user_id, OpParams::BalanceUpdate(req), now);
                }
                Ok(())
            },
        }
    }

    /// Moves available funds from `user_id` to another user.  An amount
    /// that is nonpositive or exceeds the sender's available balance is
    /// not an error: the response carries `success == false`.  Both
    /// legs are checked before either applies, so a failing transfer
    /// changes nothing.
    pub fn transfer(
        &mut self,
        real_mode: bool,
        req: TransferRequest,
        user_id: u32,
        now: u64,
    ) -> (r: Result<TransferResponse, EngineError>)
        requires
            old(self).wf(),
        ensures
            final(self).wf(),
            transfer_effect(
                *old(self),
                *final(self),
                req.asset@,
                req.to,
                req.delta,
                user_id,
                now,
                real_mode,
                r,
            ),
            real_mode && r is Ok && r->Ok_0.success ==> final(self).op_log@ == old(
                self,
            ).op_log@.push(
                OperationLog {
                    id: old(self).sequencer.operation_log_id,
                    time: now,
                    user_id,
                    params: OpParams::Transfer(req),
                },
            ),
    {
        if !self.check_service_available() {
            return Err(EngineError::ServiceUnavailable);
        }
        let aidx = match self.balance_manager.asset_manager.find_asset(&req.asset) {
            Some(i) => i,
            None => {
                return Err(EngineError::InvalidArgument);
            },
        };
        proof {
            crate::asset::lemma_asset_index_unique(
                self.balance_manager.asset_manager.assets@,
                req.asset@,
                aidx as int,
            );
        }
        if req.to == user_id {
            // Both legs would share one idempotency key; a transfer to
            // oneself is meaningless and is refused before any effect.
            return Err(EngineError::InvalidArgument);
        }
        let balance_from = self.balance_manager.get(
            user_id,
            BalanceType::AVAILABLE,
            aidx as u32,
        );
        if req.delta.mantissa <= 0 || req.delta.mantissa > balance_from.mantissa {
            return Ok(
                TransferResponse { success: false, asset: aidx as u32, balance_from },
            );
        }
        let prec = self.balance_manager.asset_manager.asset_prec_save(&req.asset);
        let applied = req.delta.round_dp(prec);
        proof {
            crate::decimal::lemma_round_nonneg(req.delta.mantissa as int, prec as nat);
        }
        if applied.mantissa > balance_from.mantissa {
            return Ok(
                TransferResponse { success: false, asset: aidx as u32, balance_from },
            );
        }
        let label = transfer_label();
        if self.update_controller.has_key(user_id, aidx as u32, &label, now)
            || self.update_controller.has_key(req.to, aidx as u32, &label, now) {
            return Err(EngineError::RepeatUpdate);
        }
        let to_avail = self.balance_manager.get(req.to, BalanceType::AVAILABLE, aidx as u32);
        let to_frozen = self.balance_manager.get(req.to, BalanceType::FREEZE, aidx as u32);
        if to_avail.mantissa + to_frozen.mantissa + applied.mantissa > MAX_MANTISSA {
            return Err(EngineError::Internal);
        }
        let business_id = now;
        let market_price = self.price_against_usdt(aidx as u32);
        let out_params = BalanceUpdateParams {
            balance_type: BalanceType::AVAILABLE,
            business_type: BusinessType::Transfer,
            user_id,
            asset: aidx as u32,
            business: clone_string_c(&label),
            business_id,
            market_price,
            change: req.delta.neg(),
            detail: clone_string_c(&req.memo),
        };
        let out_hist = match self.update_controller.update_user_balance(
            &mut self.balance_manager,
            out_params,
            now,
        ) {
            Ok(h) => h,
            Err(_) => {
                proof {
                    assert(false);
                }
                return Err(EngineError::Internal);
            },
        };
        let in_params = BalanceUpdateParams {
            balance_type: BalanceType::AVAILABLE,
            business_type: BusinessType::Transfer,
            user_id: req.to,
            asset: aidx as u32,
            business: label,
            business_id,
            market_price: Decimal { mantissa: 0 },
            change: req.delta,
            detail: clone_string_c(&req.memo),
        };
        let ghost mid_cache = self.update_controller.entries@;
        proof {
            assert(!has_update_key(
                mid_cache,
                req.to,
                aidx as u32,
                transfer_business_label(),
                now,
            )) by {
                if has_update_key(mid_cache, req.to, aidx as u32, transfer_business_label(), now) {
                    let k = choose|k: int|
                        0 <= k < mid_cache.len() && mid_cache[k].user_id == req.to
                            && mid_cache[k].asset == aidx as u32 && mid_cache[k].business@
                            == transfer_business_label() && mid_cache[k].business_id == now;
                    if k < old(self).update_controller.entries@.len() {
                        assert(mid_cache[k] == old(self).update_controller.entries@[k]);
                        assert(has_update_key(
                            old(self).update_controller.entries@,
                            req.to,
                            aidx as u32,
                            transfer_business_label(),
                            now,
                        ));
                    } else {
                        assert(mid_cache[k] == mid_cache.last());
                    }
                }
            }
        }
        proof {
            assert(avail_of(self.balance_manager.entries@, req.to, aidx as u32) == avail_of(
                old(self).balance_manager.entries@,
                req.to,
                aidx as u32,
            ));
            assert(frozen_of(self.balance_manager.entries@, req.to, aidx as u32) == frozen_of(
                old(self).balance_manager.entries@,
                req.to,
                aidx as u32,
            ));
        }
        let in_hist = match self.update_controller.update_user_balance(
            &mut self.balance_manager,
            in_params,
            now,
        ) {
            Ok(h) => h,
            Err(_) => {
                proof {
                    assert(false);
                }
                return Err(EngineError::Internal);
            },
        };
        proof {
            lemma_coupling_kept(
                self.markets@,
                old(self).balance_manager.entries@,
                self.balance_manager.entries@,
            );
        }
        let balance_after = self.balance_manager.get(
            user_id,
            BalanceType::AVAILABLE,
            aidx as u32,
        );
        if real_mode {
            match out_hist {
                Some(h) => self.persistor.put_balance(h),
                None => {},
            }
            match in_hist {
                Some(h) => self.persistor.put_balance(h),
                None => {},
            }
            self.persistor.put_transfer(
                InternalTx {
                    time: now,
                    user_from: user_id,
                    user_to: req.to,
                    asset: aidx as u32,
                    amount: applied,
                },
            );
            self.append_operation_log(user_id, OpParams::Transfer(req), now);
        }
        Ok(TransferResponse { success: true, asset: aidx as u32, balance_from: balance_after })
    }

    /// Places a batch of orders in one market, optionally cancelling the
    /// user's resting orders there first.  Stops at the first rejected
    /// order; the batch is capped at forty.
    pub fn batch_order_put(
        &mut self,
        real_mode: bool,
        req: BatchOrderPutRequest,
        user_id: u32,
        now: u64,
    ) -> (r: Result<BatchOrderPutResponse, EngineError>)
        requires
            old(self).wf(),
        ensures
            final(self).wf(),
            r == Err::<BatchOrderPutResponse, EngineError>(EngineError::ServiceUnavailable) <==> !gate_open(
                *old(self),
            ),
            gate_open(*old(self)) ==> (r == Err::<BatchOrderPutResponse, EngineError>(
                EngineError::InvalidArgument,
            ) <==> (!has_market(old(self).markets@, req.market@) || req.orders@.len() > 40 || (
            exists|j: int|
                0 <= j < req.orders@.len() && (#[trigger] req.orders@[j].market@)
                    !== req.market@))),
            !real_mode ==> final(self).persistor.messages@ == old(self).persistor.messages@
                && final(self).op_log@ == old(self).op_log@,
            r is Err ==> final(self).markets@ == old(self).markets@
                && final(self).balance_manager.entries@ == old(self).balance_manager.entries@
                && final(self).op_log@ == old(self).op_log@,
            r is Err ==> final(self).persistor.messages@ == old(self).persistor.messages@
                && final(self).sequencer == old(self).sequencer,
            final(self).settings == old(self).settings,
            r is Ok ==> ({
                let resp = r->Ok_0;
                &&& resp.order_ids@.len() <= req.orders@.len()
                &&& (resp.success <==> resp.order_ids@.len() == req.orders@.len())
                &&& final(self).sequencer.order_id == old(self).sequencer.order_id
                    + resp.order_ids@.len()
                &&& (forall|j: int|
                    0 <= j < resp.order_ids@.len() ==> (#[trigger] resp.order_ids@[j]) as int
                        == old(self).sequencer.order_id as int + j)
            }),
            real_mode && r is Ok && old(self).sequencer.operation_log_id < u64::MAX ==> final(self).op_log@ == old(self).op_log@.push(
                OperationLog {
                    id: old(self).sequencer.operation_log_id,
                    time: now,
                    user_id,
                    params: OpParams::BatchOrderPut(req),
                },
            ),
            real_mode && r is Ok && old(self).sequencer.operation_log_id == u64::MAX ==> final(self).op_log@ == old(self).op_log@,
            !real_mode && r is Ok ==> final(self).op_log@ == old(self).op_log@,
            r is Ok && req.reset && req.orders@.len() == 0 ==> ({
                let mi = market_index(old(self).markets@, req.market@);
                let m0 = old(self).markets@[mi];
                &&& final(self).markets@.len() == old(self).markets@.len()
                &&& (forall|k: int|
                    0 <= k < old(self).markets@.len() && k != mi ==> #[trigger] final(self).markets@[k] == old(self).markets@[k])
                &&& user_order_count(final(self).markets@[mi].asks@, user_id) == 0
                &&& user_order_count(final(self).markets@[mi].bids@, user_id) == 0
                &&& (forall|u2: u32, a2: u32|
                    #[trigger] avail_of(final(self).balance_manager.entries@, u2, a2) == avail_of(
                        old(self).balance_manager.entries@,
                        u2,
                        a2,
                    ) + (if u2 == user_id && a2 == m0.base {
                        user_frozen(m0.asks@, user_id)
                    } else {
                        0
                    }) + (if u2 == user_id && a2 == m0.quote {
                        user_frozen(m0.bids@, user_id)
                    } else {
                        0
                    }))
            }),
            r is Ok && !req.reset && req.orders@.len() == 0 ==> final(self).markets@ == old(
                self,
            ).markets@ && final(self).balance_manager.entries@ == old(
                self,
            ).balance_manager.entries@,
    {
        if !self.check_service_available() {
            return Err(EngineError::ServiceUnavailable);
        }
        let midx = match self.find_market(&req.market) {
            Some(i) => i,
            None => {
                return Err(EngineError::InvalidArgument);
            },
        };
        if req.orders.len() > 40 {
            return Err(EngineError::InvalidArgument);
        }
        let n = req.orders.len();
        let mut i: usize = 0;
        while i < n
            invariant
                n == req.orders@.len(),
                i <= n,
                self == old(self),
                old(self).wf(),
                gate_open(*old(self)),
                has_market(old(self).markets@, req.market@),
                req.orders@.len() <= 40,
                forall|j: int| 0 <= j < i ==> (#[trigger] req.orders@[j].market@) =~= req.market@,
            decreases n - i,
        {
            if !(req.orders[i].market == req.market) {
                return Err(EngineError::InvalidArgument);
            }
            i = i + 1;
        }
        proof {
            lemma_market_index_unique(self.markets@, req.market@, midx as int);
        }
        if req.reset {
            let _swept = self.sweep_user_orders(real_mode, midx, user_id);
        }
        let ghost mi0 = market_index(old(self).markets@, req.market@);
        let mut order_ids: Vec<u64> = Vec::new();
        let mut success = true;
        let mut i: usize = 0;
        while i < n
            invariant_except_break
                success,
            invariant
                n == req.orders@.len(),
                i <= n,
                self.wf(),
                gate_open(*old(self)),
                has_market(old(self).markets@, req.market@),
                req.orders@.len() <= 40,
                forall|j: int| 0 <= j < n ==> (#[trigger] req.orders@[j].market@) =~= req.market@,
                self.settings == old(self).settings,
                !real_mode ==> self.persistor.messages@ == old(self).persistor.messages@
                    && self.op_log@ == old(self).op_log@,
                self.op_log@ == old(self).op_log@,
                self.sequencer.operation_log_id == old(self).sequencer.operation_log_id,
                self.sequencer.order_id == old(self).sequencer.order_id + order_ids@.len(),
                order_ids@.len() <= i,
                success ==> order_ids@.len() == i,
                forall|j: int|
                    0 <= j < order_ids@.len() ==> (#[trigger] order_ids@[j]) as int == old(
                        self,
                    ).sequencer.order_id as int + j,
                n == 0 ==> self.markets@.len() == old(self).markets@.len(),
                req.reset && n == 0 ==> ({
                    let m0 = old(self).markets@[mi0];
                    &&& (forall|k: int|
                        0 <= k < old(self).markets@.len() && k != mi0 ==> #[trigger] self.markets@[k]
                            == old(self).markets@[k])
                    &&& user_order_count(self.markets@[mi0].asks@, user_id) == 0
                    &&& user_order_count(self.markets@[mi0].bids@, user_id) == 0
                    &&& (forall|u2: u32, a2: u32|
                        #[trigger] avail_of(self.balance_manager.entries@, u2, a2) == avail_of(
                            old(self).balance_manager.entries@,
                            u2,
                            a2,
                        ) + (if u2 == user_id && a2 == m0.base {
                            user_frozen(m0.asks@, user_id)
                        } else {
                            0
                        }) + (if u2 == user_id && a2 == m0.quote {
                            user_frozen(m0.bids@, user_id)
                        } else {
                            0
                        }))
                }),
                !req.reset && n == 0 ==> self.markets@ == old(self).markets@
                    && self.balance_manager.entries@ == old(self).balance_manager.entries@,
            ensures
                success <==> order_ids@.len() == n,
            decreases n - i,
        {
            if self.sequencer.order_id == u64::MAX {
                success = false;
            } else {
                match self.put_order(real_mode, &req.orders[i], user_id, now) {
                    Ok(o) => {
                        order_ids.push(o.id);
                    },
                    Err(_) => {
                        success = false;
                    },
                }
            }
            if !success {
                break ;
            }
            i = i + 1;
        }
        if real_mode {
            if self.sequencer.operation_log_id < u64::MAX {
                self.append_operation_log(user_id, OpParams::BatchOrderPut(req), now);
            }
        }
        Ok(
            BatchOrderPutResponse {
                success,
                error_message: if success {
                    String::new()
                } else {
                    order_rejected_note()
                },
                order_ids,
            },
        )
    }

    /// Replays one journal entry against the engine: the same operation
    /// with its original timestamp and user, recording no events and no
    /// new journal entries.  Each entry takes exactly the effect its
    /// operation takes in non-real mode.
    pub fn replay(&mut self, entry: &OperationLog) -> (r: Result<(), EngineError>)
        requires
            old(self).wf(),
        ensures
            final(self).wf(),
            final(self).persistor.messages@ == old(self).persistor.messages@,
            final(self).op_log@ == old(self).op_log@,
            (entry.params matches OpParams::BalanceUpdate(q) ==> balance_update_effect(
                *old(self),
                *final(self),
                q.asset@,
                q.business@,
                q.business_id,
                q.delta,
                entry.user_id,
                false,
                r,
            )),
            (entry.params matches OpParams::OrderPut(q) ==> exists|rr: Result<Order, EngineError>|
                order_put_effect(
                    *old(self),
                    *final(self),
                    q.market@,
                    q.order_side,
                    q.order_type,
                    q.amount,
                    q.price,
                    q.quote_limit,
                    q.taker_fee,
                    q.maker_fee,
                    q.post_only,
                    entry.user_id,
                    entry.time,
                    false,
                    rr,
                ) && (r is Ok <==> rr is Ok)),
            (entry.params matches OpParams::OrderCancel(q) ==> exists|
                rr: Result<Order, EngineError>,
            |
                order_cancel_effect(
                    *old(self),
                    *final(self),
                    q.market@,
                    q.order_id,
                    entry.user_id,
                    false,
                    rr,
                ) && (r is Ok <==> rr is Ok)),
            (entry.params matches OpParams::OrderCancelAll(q) ==> exists|
                rr: Result<usize, EngineError>,
            |
                order_cancel_all_effect(
                    *old(self),
                    *final(self),
                    q.market@,
                    entry.user_id,
                    false,
                    rr,
                ) && (r is Ok <==> rr is Ok)),
            (entry.params matches OpParams::Transfer(q) ==> exists|
                rr: Result<TransferResponse, EngineError>,
            |
                transfer_effect(
                    *old(self),
                    *final(self),
                    q.asset@,
                    q.to,
                    q.delta,
                    entry.user_id,
                    entry.time,
                    false,
                    rr,
                ) && (r is Ok <==> rr is Ok)),
    {
        match &entry.params {
            OpParams::BalanceUpdate(q) => {
                let req = BalanceUpdateRequest {
                    asset: clone_string_c(&q.asset),
                    business: clone_string_c(&q.business),
                    business_id: q.business_id,
                    delta: q.delta,
                    detail: clone_string_c(&q.detail),
                };
                self.update_balance(false, req, entry.user_id, entry.time)
            },
            OpParams::OrderPut(q) => {
                let req = OrderPutRequest {
                    market: clone_string_c(&q.market),
                    order_side: q.order_side,
                    order_type: q.order_type,
                    amount: q.amount,
                    price: q.price,
                    quote_limit: q.quote_limit,
                    taker_fee: q.taker_fee,
                    maker_fee: q.maker_fee,
                    post_only: q.post_only,
                };
                let rr = self.order_put(false, req, entry.user_id, entry.time);
                match rr {
                    Ok(_) => Ok(()),
                    Err(e) => Err(e),
                }
            },
            OpParams::BatchOrderPut(q) => {
                let mut orders: Vec<OrderPutRequest> = Vec::new();
                let m = q.orders.len();
                let mut j: usize = 0;
                while j < m
                    invariant
                        m == q.orders@.len(),
                        j <= m,
                    decreases m - j,
                {
                    orders.push(
                        OrderPutRequest {
                            market: clone_string_c(&q.orders[j].market),
                            order_side: q.orders[j].order_side,
                            order_type: q.orders[j].order_type,
                            amount: q.orders[j].amount,
                            price: q.orders[j].price,
                            quote_limit: q.orders[j].quote_limit,
                            taker_fee: q.orders[j].taker_fee,
                            maker_fee: q.orders[j].maker_fee,
                            post_only: q.orders[j].post_only,
                        },
                    );
                    j = j + 1;
                }
                let req = BatchOrderPutRequest {
                    market: clone_string_c(&q.market),
                    reset: q.reset,
                    orders,
                };
                match self.batch_order_put(false, req, entry.user_id, entry.time) {
                    Ok(_) => Ok(()),
                    Err(e) => Err(e),
                }
            },
            OpParams::OrderCancel(q) => {
                let req = OrderCancelRequest {
                    market: clone_string_c(&q.market),
                    order_id: q.order_id,
                };
                let rr = self.order_cancel(false, req, entry.user_id, entry.time);
                match rr {
                    Ok(_) => Ok(()),
                    Err(e) => Err(e),
                }
            },
            OpParams::OrderCancelAll(q) => {
                let req = OrderCancelAllRequest { market: clone_string_c(&q.market) };
                let rr = self.order_cancel_all(false, req, entry.user_id, entry.time);
                match rr {
                    Ok(_) => Ok(()),
                    Err(e) => Err(e),
                }
            },
            OpParams::Transfer(q) => {
                let req = TransferRequest {
                    asset: clone_string_c(&q.asset),
                    to: q.to,
                    delta: q.delta,
                    memo: clone_string_c(&q.memo),
                };
                let rr = self.transfer(false, req, entry.user_id, entry.time);
                match rr {
                    Ok(_) => Ok(()),
                    Err(e) => Err(e),
                }
            },
        }
    }

    /// The registered assets, as configured.
    pub fn asset_list(&self) -> (r: Vec<Asset>)
        ensures
            r@.len() == self.balance_manager.asset_manager.assets@.len(),
            forall|i: int|
                0 <= i < r@.len() ==> (#[trigger] r@[i])@
                    == self.balance_manager.asset_manager.assets@[i]@,
    {
        duplicate_assets(&self.balance_manager.asset_manager.assets)
    }

    /// Available and frozen balance of one asset, rounded to its
    /// boundary precision.
    pub fn balance_query(&self, user_id: u32, asset: &String) -> (r: Result<
        (Decimal, Decimal),
        EngineError,
    >)
        requires
            self.wf(),
        ensures
            r is Err <==> !has_asset(self.balance_manager.asset_manager.assets@, asset@),
            r is Err ==> r == Err::<(Decimal, Decimal), EngineError>(EngineError::InvalidArgument),
            r is Ok ==> ({
                let am = self.balance_manager.asset_manager.assets@;
                let ai = crate::asset::asset_index(am, asset@);
                let prec = am[ai].prec_show as nat;
                &&& r->Ok_0.0.mantissa == round_half_at(
                    avail_of(self.balance_manager.entries@, user_id, ai as u32),
                    prec,
                )
                &&& r->Ok_0.1.mantissa == round_half_at(
                    frozen_of(self.balance_manager.entries@, user_id, ai as u32),
                    prec,
                )
            }),
    {
        let aidx = match self.balance_manager.asset_manager.find_asset(asset) {
            Some(i) => i,
            None => {
                return Err(EngineError::InvalidArgument);
            },
        };
        if aidx >= u32::MAX as usize {
            return Err(EngineError::InvalidArgument);
        }
        proof {
            crate::asset::lemma_asset_index_unique(
                self.balance_manager.asset_manager.assets@,
                asset@,
                aidx as int,
            );
        }
        let available = self.balance_manager.get_with_round(
            user_id,
            BalanceType::AVAILABLE,
            aidx as u32,
        );
        let frozen = self.balance_manager.get_with_round(
            user_id,
            BalanceType::FREEZE,
            aidx as u32,
        );
        Ok((available, frozen))
    }

    /// The resting orders of `user_id` in one market: exactly the
    /// user's entries of both books, asks first, each side best-first.
    pub fn order_query(&self, market: &String, user_id: u32) -> (r: Result<
        Vec<Order>,
        EngineError,
    >)
        requires
            self.wf(),
        ensures
            r is Err <==> !has_market(self.markets@, market@),
            r is Err ==> r == Err::<Vec<Order>, EngineError>(EngineError::InvalidArgument),
            r is Ok ==> ({
                let m0 = self.markets@[market_index(self.markets@, market@)];
                r->Ok_0@ == orders_of(m0.asks@, user_id) + orders_of(m0.bids@, user_id)
            }),
    {
        let midx = match self.find_market(market) {
            Some(i) => i,
            None => {
                return Err(EngineError::InvalidArgument);
            },
        };
        proof {
            lemma_market_index_unique(self.markets@, market@, midx as int);
        }
        let m = &self.markets[midx];
        let mut out: Vec<Order> = Vec::new();
        let na = m.asks.len();
        let mut i: usize = 0;
        while i < na
            invariant
                na == m.asks@.len(),
                i <= na,
                out@ == orders_of(m.asks@.take(i as int), user_id),
            decreases na - i,
        {
            proof {
                assert(m.asks@.take(i + 1).drop_last() =~= m.asks@.take(i as int));
                assert(m.asks@.take(i + 1).last() == m.asks@[i as int]);
            }
            if m.asks[i].user == user_id {
                out.push(m.asks[i]);
            }
            i = i + 1;
        }
        proof {
            assert(m.asks@.take(na as int) =~= m.asks@);
        }
        let nb = m.bids.len();
        let mut i: usize = 0;
        while i < nb
            invariant
                nb == m.bids@.len(),
                i <= nb,
                out@ == orders_of(m.asks@, user_id) + orders_of(m.bids@.take(i as int), user_id),
            decreases nb - i,
        {
            proof {
                assert(m.bids@.take(i + 1).drop_last() =~= m.bids@.take(i as int));
                assert(m.bids@.take(i + 1).last() == m.bids@[i as int]);
                if m.bids@[i as int].user == user_id {
                    assert(orders_of(m.asks@, user_id) + orders_of(m.bids@.take(i + 1), user_id)
                        =~= (orders_of(m.asks@, user_id) + orders_of(
                        m.bids@.take(i as int),
                        user_id,
                    )).push(m.bids@[i as int]));
                }
            }
            if m.bids[i].user == user_id {
                out.push(m.bids[i]);
            }
            i = i + 1;
        }
        proof {
            assert(m.bids@.take(nb as int) =~= m.bids@);
        }
        Ok(out)
    }

    /// The aggregated book depth of one market: walk each book
    /// best-first, bucket prices by the interval (upwards for asks,
    /// downwards for bids), sum amounts per level, and keep the best
    /// `limit` levels.
    pub fn order_book_depth(&self, market: &String, limit: usize, interval: &Decimal) -> (r:
        Result<MarketDepth, EngineError>)
        requires
            self.wf(),
            0 <= interval.mantissa <= MAX_MANTISSA,
        ensures
            r is Err <==> !has_market(self.markets@, market@),
            r is Err ==> r == Err::<MarketDepth, EngineError>(EngineError::InvalidArgument),
            r is Ok ==> ({
                let m0 = self.markets@[market_index(self.markets@, market@)];
                let fa = crate::market::depth_levels(m0.asks@, interval.mantissa as int, true);
                let fb = crate::market::depth_levels(m0.bids@, interval.mantissa as int, false);
                &&& r->Ok_0.asks@ == (if fa.len() <= limit {
                    fa
                } else {
                    fa.take(limit as int)
                })
                &&& r->Ok_0.bids@ == (if fb.len() <= limit {
                    fb
                } else {
                    fb.take(limit as int)
                })
            }),
    {
        let midx = match self.find_market(market) {
            Some(i) => i,
            None => {
                return Err(EngineError::InvalidArgument);
            },
        };
        proof {
            lemma_market_index_unique(self.markets@, market@, midx as int);
            assert(self.markets@[midx as int].wf(self.balance_manager.asset_manager));
        }
        Ok(self.markets[midx].depth(limit, interval))
    }

    /// A copy of one resting order.
    pub fn order_detail(&self, market: &String, order_id: u64) -> (r: Result<Order, EngineError>)
        requires
            self.wf(),
        ensures
            ({
                let mk = has_market(self.markets@, market@);
                let m0 = self.markets@[market_index(self.markets@, market@)];
                let resting = has_order_id(m0.asks@, order_id) || has_order_id(
                    m0.bids@,
                    order_id,
                );
                &&& (r == Err::<Order, EngineError>(EngineError::InvalidArgument) <==> !mk)
                &&& (mk ==> (r == Err::<Order, EngineError>(EngineError::NotFound) <==> !resting))
                &&& (r is Ok <==> (mk && resting))
                &&& (r is Ok ==> r->Ok_0 == order_with_id(m0, order_id))
            }),
    {
        let midx = match self.find_market(market) {
            Some(i) => i,
            None => {
                return Err(EngineError::InvalidArgument);
            },
        };
        proof {
            lemma_market_index_unique(self.markets@, market@, midx as int);
            assert(self.markets@[midx as int].wf(self.balance_manager.asset_manager));
        }
        match self.markets[midx].get(order_id) {
            Some(o) => Ok(o),
            None => Err(EngineError::NotFound),
        }
    }

    /// The configured markets.
    pub fn market_list(&self) -> (r: Vec<config::Market>)
        requires
            self.wf(),
        ensures
            r@.len() == self.markets@.len(),
            forall|i: int|
                0 <= i < r@.len() ==> ({
                    let m = self.markets@[i];
                    let am = self.balance_manager.asset_manager.assets@;
                    &&& (#[trigger] r@[i]).name@ == m.name@
                    &&& r@[i].base@ == am[m.base as int].id@
                    &&& r@[i].quote@ == am[m.quote as int].id@
                    &&& r@[i].amount_prec == m.amount_prec
                    &&& r@[i].price_prec == m.price_prec
                    &&& r@[i].fee_prec == m.fee_prec
                    &&& r@[i].min_amount == m.min_amount
                }),
    {
        let n = self.markets.len();
        let mut out: Vec<config::Market> = Vec::new();
        let mut i: usize = 0;
        while i < n
            invariant
                self.wf(),
                n == self.markets@.len(),
                i <= n,
                out@.len() == i,
                forall|j: int|
                    0 <= j < i ==> ({
                        let m = self.markets@[j];
                        let am = self.balance_manager.asset_manager.assets@;
                        &&& (#[trigger] out@[j]).name@ == m.name@
                        &&& out@[j].base@ == am[m.base as int].id@
                        &&& out@[j].quote@ == am[m.quote as int].id@
                        &&& out@[j].amount_prec == m.amount_prec
                        &&& out@[j].price_prec == m.price_prec
                        &&& out@[j].fee_prec == m.fee_prec
                        &&& out@[j].min_amount == m.min_amount
                    }),
            decreases n - i,
        {
            proof {
                assert(self.markets@[i as int].wf(self.balance_manager.asset_manager));
            }
            let m = &self.markets[i];
            let base_id = clone_string_c(
                &self.balance_manager.asset_manager.assets[m.base as usize].id,
            );
            let quote_id = clone_string_c(
                &self.balance_manager.asset_manager.assets[m.quote as usize].id,
            );
            out.push(
                config::Market {
                    name: clone_string_c(&m.name),
                    base: base_id,
                    quote: quote_id,
                    amount_prec: m.amount_prec,
                    price_prec: m.price_prec,
                    fee_prec: m.fee_prec,
                    min_amount: m.min_amount,
                },
            );
            i = i + 1;
        }
        out
    }

    /// Counts and open amounts of every market.
    pub fn market_summary(&self) -> (r: Vec<MarketStatus>)
        requires
            self.wf(),
        ensures
            r@.len() == self.markets@.len(),
            forall|i: int|
                0 <= i < r@.len() ==> ({
                    let m = self.markets@[i];
                    &&& (#[trigger] r@[i]).name@ == m.name@
                    &&& r@[i].ask_count == m.asks@.len()
                    &&& r@[i].bid_count == m.bids@.len()
                    &&& r@[i].trade_count == m.trade_count
                    &&& r@[i].ask_amount.mantissa == (if crate::market::total_remain(m.asks@)
                        <= MAX_MANTISSA {
                        crate::market::total_remain(m.asks@)
                    } else {
                        MAX_MANTISSA as int
                    })
                    &&& r@[i].bid_amount.mantissa == (if crate::market::total_remain(m.bids@)
                        <= MAX_MANTISSA {
                        crate::market::total_remain(m.bids@)
                    } else {
                        MAX_MANTISSA as int
                    })
                }),
    {
        let n = self.markets.len();
        let mut out: Vec<MarketStatus> = Vec::new();
        let mut i: usize = 0;
        while i < n
            invariant
                self.wf(),
                n == self.markets@.len(),
                i <= n,
                out@.len() == i,
                forall|j: int|
                    0 <= j < i ==> ({
                        let m = self.markets@[j];
                        &&& (#[trigger] out@[j]).name@ == m.name@
                        &&& out@[j].ask_count == m.asks@.len()
                        &&& out@[j].bid_count == m.bids@.len()
                        &&& out@[j].trade_count == m.trade_count
                        &&& out@[j].ask_amount.mantissa == (if crate::market::total_remain(m.asks@)
                            <= MAX_MANTISSA {
                            crate::market::total_remain(m.asks@)
                        } else {
                            MAX_MANTISSA as int
                        })
                        &&& out@[j].bid_amount.mantissa == (if crate::market::total_remain(
                            m.bids@,
                        ) <= MAX_MANTISSA {
                            crate::market::total_remain(m.bids@)
                        } else {
                            MAX_MANTISSA as int
                        })
                    }),
            decreases n - i,
        {
            proof {
                assert(self.markets@[i as int].wf(self.balance_manager.asset_manager));
                assert forall|j: int|
                    0 <= j < self.markets@[i as int].asks@.len() implies 0 <= (
                #[trigger] self.markets@[i as int].asks@[j]).remain.mantissa <= MAX_MANTISSA by {
                    assert(crate::order::resting_wf(
                        self.markets@[i as int].asks@[j],
                        self.markets@[i as int].idx,
                    ));
                }
                assert forall|j: int|
                    0 <= j < self.markets@[i as int].bids@.len() implies 0 <= (
                #[trigger] self.markets@[i as int].bids@[j]).remain.mantissa <= MAX_MANTISSA by {
                    assert(crate::order::resting_wf(
                        self.markets@[i as int].bids@[j],
                        self.markets@[i as int].idx,
                    ));
                }
            }
            out.push(self.markets[i].status());
            i = i + 1;
        }
        out
    }

    /// Additive reload of the catalogs: appends assets through the
    /// registry's validated append (entries repeating a registered id
    /// must repeat its content) and then one fresh market per new
    /// entry; a market name already present, or any invalid entry,
    /// rejects the batch of markets from that point on.  Books,
    /// balances, the journal and the sinks are untouched.
    pub fn market_reload(&mut self, assets: Vec<Asset>, markets: Vec<config::Market>) -> (r:
        Result<(), EngineError>)
        requires
            old(self).wf(),
        ensures
            final(self).wf(),
            r is Err ==> r == Err::<(), EngineError>(EngineError::InvalidArgument) || r == Err::<
                (),
                EngineError,
            >(EngineError::Internal),
            final(self).markets@.len() >= old(self).markets@.len(),
            forall|k: int|
                0 <= k < old(self).markets@.len() ==> #[trigger] final(self).markets@[k] == old(
                    self,
                ).markets@[k],
            forall|k: int|
                old(self).markets@.len() <= k < final(self).markets@.len() ==> (
                #[trigger] final(self).markets@[k]).asks@.len() == 0
                    && final(self).markets@[k].bids@.len() == 0,
            final(self).balance_manager.entries@ == old(self).balance_manager.entries@,
            final(self).op_log@ == old(self).op_log@,
            final(self).persistor.messages@ == old(self).persistor.messages@,
            final(self).settings == old(self).settings,
            final(self).sequencer == old(self).sequencer,
            r is Ok ==> crate::asset::append_valid(
                old(self).balance_manager.asset_manager.assets@,
                assets@,
            ),
            r is Ok ==> forall|k: int|
                0 <= k < markets@.len() ==> has_market(
                    final(self).markets@,
                    (#[trigger] markets@[k]).name@,
                ),
            r is Ok <==> reload_acceptable(
                *old(self),
                final(self).balance_manager.asset_manager.assets@,
                assets@,
                markets@,
            ),
            r is Ok ==> final(self).markets@.len() == old(self).markets@.len() + markets@.len(),
            r is Ok ==> forall|k: int|
                0 <= k < markets@.len() ==> ({
                    let e = #[trigger] markets@[k];
                    let m = final(self).markets@[old(self).markets@.len() + k];
                    &&& m.name@ == e.name@
                    &&& m.amount_prec == e.amount_prec
                    &&& m.price_prec == e.price_prec
                    &&& m.fee_prec == e.fee_prec
                    &&& m.min_amount == e.min_amount
                    &&& m.price.mantissa == 0
                    &&& m.trade_count == 0
                    &&& final(self).balance_manager.asset_manager.assets@[m.base as int].id@
                        == e.base@
                    &&& final(self).balance_manager.asset_manager.assets@[m.quote as int].id@
                        == e.quote@
                }),
    {
        if assets.len() > u32::MAX as usize || self.balance_manager.asset_manager.assets.len()
            > u32::MAX as usize - assets.len() {
            return Err(EngineError::InvalidArgument);
        }
        match self.balance_manager.asset_manager.append(&assets) {
            Ok(()) => {},
            Err(e) => {
                proof {
                    assert forall|u2: u32, a2: u32|
                        #[trigger] frozen_of(self.balance_manager.entries@, u2, a2)
                            == total_frozen(self.markets@, u2, a2) by {}
                }
                return Err(e);
            },
        }
        proof {
            assert forall|i: int|
                0 <= i < self.markets@.len() implies (#[trigger] self.markets@[i]).wf(
                self.balance_manager.asset_manager,
            ) by {
                let m = self.markets@[i];
                assert(m == old(self).markets@[i]);
                assert(m.wf(old(self).balance_manager.asset_manager));
                assert(m.precs_ok(old(self).balance_manager.asset_manager));
                assert(self.balance_manager.asset_manager.assets@[m.base as int] == old(
                    self,
                ).balance_manager.asset_manager.assets@[m.base as int]);
                assert(self.balance_manager.asset_manager.assets@[m.quote as int] == old(
                    self,
                ).balance_manager.asset_manager.assets@[m.quote as int]);
            }
            assert forall|u2: u32, a2: u32|
                #[trigger] frozen_of(self.balance_manager.entries@, u2, a2) == total_frozen(
                    self.markets@,
                    u2,
                    a2,
                ) by {}
        }
        let ghost am1 = self.balance_manager.asset_manager;
        let n = markets.len();
        let mut i: usize = 0;
        while i < n
            invariant
                n == markets@.len(),
                i <= n,
                self.wf(),
                self.balance_manager.asset_manager == am1,
                self.balance_manager.entries@ == old(self).balance_manager.entries@,
                self.op_log@ == old(self).op_log@,
                self.persistor.messages@ == old(self).persistor.messages@,
                self.settings == old(self).settings,
                self.sequencer == old(self).sequencer,
                self.markets@.len() == old(self).markets@.len() + i,
                forall|k: int|
                    0 <= k < old(self).markets@.len() ==> #[trigger] self.markets@[k] == old(
                        self,
                    ).markets@[k],
                forall|k: int|
                    old(self).markets@.len() <= k < self.markets@.len()
                        ==> (#[trigger] self.markets@[k]).asks@.len() == 0
                        && self.markets@[k].bids@.len() == 0,
                forall|k: int|
                    0 <= k < i ==> has_market(self.markets@, (#[trigger] markets@[k]).name@),
                forall|k: int|
                    0 <= k < i ==> !has_market(
                        old(self).markets@,
                        (#[trigger] markets@[k]).name@,
                    ),
                forall|j: int, k: int| 0 <= j < k < i ==> markets@[j].name@ !== markets@[k].name@,
                forall|k: int|
                    0 <= k < i ==> crate::market::market_config_acceptable(
                        #[trigger] markets@[k],
                        am1.assets@,
                    ),
                forall|k: int|
                    0 <= k < i ==> ({
                        let e = #[trigger] markets@[k];
                        let m = self.markets@[old(self).markets@.len() + k];
                        &&& m.name@ == e.name@
                        &&& m.amount_prec == e.amount_prec
                        &&& m.price_prec == e.price_prec
                        &&& m.fee_prec == e.fee_prec
                        &&& m.min_amount == e.min_amount
                        &&& m.price.mantissa == 0
                        &&& m.trade_count == 0
                        &&& am1.assets@[m.base as int].id@ == e.base@
                        &&& am1.assets@[m.quote as int].id@ == e.quote@
                    }),
                crate::asset::append_valid(
                    old(self).balance_manager.asset_manager.assets@,
                    assets@,
                ),
                assets@.len() <= u32::MAX,
                old(self).balance_manager.asset_manager.assets@.len() <= u32::MAX - assets@.len(),
            decreases n - i,
        {
            if self.markets.len() >= u32::MAX as usize {
                return Err(EngineError::Internal);
            }
            match self.find_market(&markets[i].name) {
                Some(w) => {
                    proof {
                        let pl = old(self).markets@.len() as int;
                        if (w as int) < pl {
                            assert(old(self).markets@[w as int].name@ == markets@[i as int].name@);
                        } else {
                            let j = w as int - pl;
                            assert(self.markets@[pl + j].name@ == markets@[j].name@);
                        }
                    }
                    return Err(EngineError::InvalidArgument);
                },
                None => {},
            }
            let idx = self.markets.len();
            let m = match Market::new(
                &markets[i],
                idx as u32,
                &self.balance_manager.asset_manager,
            ) {
                Ok(m) => m,
                Err(e) => {
                    return Err(e);
                },
            };
            let ghost pre = self.markets@;
            self.markets.push(m);
            proof {
                let l = pre.len() as int;
                assert(self.markets@[l] == m);
                assert forall|k: int|
                    0 <= k < self.markets@.len() implies (#[trigger] self.markets@[k]).wf(
                    self.balance_manager.asset_manager,
                ) && self.markets@[k].idx == k as u32 by {
                    if k < l {
                        assert(self.markets@[k] == pre[k]);
                    }
                }
                assert forall|x: int, y: int|
                    0 <= x < y < self.markets@.len() implies self.markets@[x].name@
                    !== self.markets@[y].name@ by {
                    if y == l {
                        assert(self.markets@[x] == pre[x]);
                        if pre[x].name@ == m.name@ {
                            assert(has_market(pre, m.name@));
                        }
                    } else {
                        assert(self.markets@[x] == pre[x]);
                        assert(self.markets@[y] == pre[y]);
                    }
                }
                assert forall|k: int|
                    0 <= k < self.markets@.len() implies ids_below(
                    (#[trigger] self.markets@[k]).asks@,
                    self.sequencer.order_id,
                ) && ids_below(self.markets@[k].bids@, self.sequencer.order_id) by {
                    if k < l {
                        assert(self.markets@[k] == pre[k]);
                    }
                }
                assert forall|u2: u32, a2: u32|
                    #[trigger] frozen_of(self.balance_manager.entries@, u2, a2) == total_frozen(
                        self.markets@,
                        u2,
                        a2,
                    ) by {
                    lemma_total_frozen_push(pre, m, u2, a2);
                }
                assert forall|k: int|
                    0 <= k < i + 1 implies has_market(
                    self.markets@,
                    (#[trigger] markets@[k]).name@,
                ) by {
                    if k < i {
                        let w = choose|w: int|
                            0 <= w < pre.len() && pre[w].name@ == markets@[k].name@;
                        assert(self.markets@[w] == pre[w]);
                    } else {
                        assert(self.markets@[l].name@ == markets@[k].name@);
                    }
                }
                let pl = old(self).markets@.len() as int;
                assert(!has_market(old(self).markets@, markets@[i as int].name@)) by {
                    if has_market(old(self).markets@, markets@[i as int].name@) {
                        let w = choose|w: int|
                            0 <= w < old(self).markets@.len() && old(self).markets@[w].name@
                                == markets@[i as int].name@;
                        assert(pre[w] == old(self).markets@[w]);
                    }
                }
                assert forall|j: int, k: int|
                    0 <= j < k < i + 1 implies markets@[j].name@ !== markets@[k].name@ by {
                    if k == i as int {
                        assert(pre[pl + j].name@ == markets@[j].name@);
                    }
                }
                assert forall|k: int|
                    0 <= k < i + 1 implies ({
                        let e = #[trigger] markets@[k];
                        let mm = self.markets@[pl + k];
                        &&& mm.name@ == e.name@
                        &&& mm.amount_prec == e.amount_prec
                        &&& mm.price_prec == e.price_prec
                        &&& mm.fee_prec == e.fee_prec
                        &&& mm.min_amount == e.min_amount
                        &&& mm.price.mantissa == 0
                        &&& mm.trade_count == 0
                        &&& am1.assets@[mm.base as int].id@ == e.base@
                        &&& am1.assets@[mm.quote as int].id@ == e.quote@
                    }) by {
                    if k < i {
                        assert(self.markets@[pl + k] == pre[pl + k]);
                    } else {
                        assert(self.markets@[pl + k] == m);
                    }
                }
            }
            i = i + 1;
        }
        Ok(())
    }

    /// Forgets every balance, order, journal entry and event, and
    /// restarts the id streams.
    pub fn reset_state(&mut self)
        requires
            old(self).wf(),
        ensures
            final(self).wf(),
            final(self).op_log@.len() == 0,
            final(self).persistor.messages@.len() == 0,
            final(self).balance_manager.entries@.len() == 0,
            final(self).update_controller.entries@.len() == 0,
            final(self).sequencer == Sequencer::spec_fresh(),
            final(self).markets@.len() == old(self).markets@.len(),
            forall|i: int|
                0 <= i < final(self).markets@.len() ==> ({
                    let m = #[trigger] final(self).markets@[i];
                    m.asks@.len() == 0 && m.bids@.len() == 0 && m.trade_count == 0
                        && m.price.mantissa == 0 && m.name@ == old(self).markets@[i].name@
                }),
    {
        let n = self.markets.len();
        let mut i: usize = 0;
        while i < n
            invariant
                n == self.markets@.len(),
                i <= n,
                self.balance_manager.wf(),
                update_keys_unique(self.update_controller.entries@),
                self.markets@.len() <= u32::MAX,
                self.balance_manager.asset_manager.assets@.len() <= u32::MAX,
                forall|j: int|
                    0 <= j < self.markets@.len() ==> (#[trigger] self.markets@[j]).wf(
                        self.balance_manager.asset_manager,
                    ) && self.markets@[j].idx == j as u32,
                forall|j: int|
                    0 <= j < i ==> (#[trigger] self.markets@[j]).asks@.len() == 0
                        && self.markets@[j].bids@.len() == 0 && self.markets@[j].trade_count == 0
                        && self.markets@[j].price.mantissa == 0,
                forall|j: int|
                    0 <= j < self.markets@.len() ==> (#[trigger] self.markets@[j]).name@
                        == old(self).markets@[j].name@,
                forall|x: int, y: int|
                    0 <= x < y < self.markets@.len() ==> self.markets@[x].name@
                        !== self.markets@[y].name@,
            decreases n - i,
        {
            let ghost pre = self.markets@;
            let mref = &mut self.markets[i];
            mref.reset();
            proof {
                assert forall|j: int|
                    0 <= j < self.markets@.len() implies (#[trigger] self.markets@[j]).wf(
                    self.balance_manager.asset_manager,
                ) && self.markets@[j].idx == j as u32 by {
                    if j != i {
                        assert(self.markets@[j] == pre[j]);
                    }
                }
                assert forall|j: int|
                    0 <= j < self.markets@.len() implies (#[trigger] self.markets@[j]).name@
                    == old(self).markets@[j].name@ by {
                    if j != i {
                        assert(self.markets@[j] == pre[j]);
                    }
                    assert(pre[j].name@ == old(self).markets@[j].name@);
                }
                assert forall|x: int, y: int|
                    0 <= x < y < self.markets@.len() implies self.markets@[x].name@
                    !== self.markets@[y].name@ by {
                    assert(self.markets@[x].name@ == old(self).markets@[x].name@);
                    assert(self.markets@[y].name@ == old(self).markets@[y].name@);
                    assert(old(self).markets@[x].name@ !== old(self).markets@[y].name@);
                }
            }
            i = i + 1;
        }
        self.sequencer.reset(0, 0, 0);
        self.balance_manager.reset();
        self.update_controller.reset();
        self.op_log.clear();
        self.persistor.messages.clear();
        proof {
            assert forall|u: u32, a: u32|
                #[trigger] frozen_of(self.balance_manager.entries@, u, a) == total_frozen(
                    self.markets@,
                    u,
                    a,
                ) by {
                lemma_total_frozen_empty(self.markets@, u, a);
                assert(!crate::balance::has_entry(self.balance_manager.entries@, u, a));
            }
        }
    }
}

/// The business label every transfer is recorded under.
fn transfer_label() -> (r: String)
    ensures
        r@ == transfer_business_label(),
{
    "transfer".to_owned()
}

/// The note a rejected batch order leaves in the response.
fn order_rejected_note() -> (r: String) {
    "order rejected".to_owned()
}




/// Whether the service gate admits a mutating operation.
pub open spec fn gate_open(c: Controller) -> bool {
    !c.service_suspended && c.sequencer.order_id < u64::MAX && c.sequencer.trade_id < u64::MAX
        && c.sequencer.operation_log_id < u64::MAX
}

/// Everything `Controller::update_balance` does, stated over the states
/// before and after the call.
pub open spec fn balance_update_effect(
    pre: Controller,
    post: Controller,
    asset: Seq<char>,
    business: Seq<char>,
    business_id: u64,
    delta: Decimal,
    user_id: u32,
    real_mode: bool,
    r: Result<(), EngineError>,
) -> bool {
    let am = pre.balance_manager.asset_manager.assets@;
    let known = has_asset(am, asset);
    let ai = crate::asset::asset_index(am, asset);
    let aidx = ai as u32;
    let in_bounds = -MAX_MANTISSA <= delta.mantissa <= MAX_MANTISSA;
    let dup = has_update_key(pre.update_controller.entries@, user_id, aidx, business, business_id);
    let prev = pre.update_controller.entries@[update_key_index(
        pre.update_controller.entries@,
        user_id,
        aidx,
        business,
        business_id,
    )].change;
    let prec = am[ai].prec_save as nat;
    let rd_pos = round_half_at(delta.mantissa as int, prec);
    let rd_neg = round_half_at(-delta.mantissa as int, prec);
    &&& (r == Err::<(), EngineError>(EngineError::ServiceUnavailable) <==> !gate_open(pre))
    &&& (gate_open(pre) ==> (r == Err::<(), EngineError>(EngineError::InvalidArgument) <==> (
    !known || !in_bounds)))
    &&& (gate_open(pre) && known && in_bounds ==> (r == Err::<(), EngineError>(
        EngineError::RepeatUpdate,
    ) <==> (dup && prev != delta)))
    &&& (gate_open(pre) && known && in_bounds && !dup && delta.mantissa < 0 ==> (r == Err::<
        (),
        EngineError,
    >(EngineError::InsufficientBalance) <==> avail_of(
        pre.balance_manager.entries@,
        user_id,
        aidx,
    ) < rd_neg))
    &&& (gate_open(pre) && known && in_bounds && !dup && delta.mantissa >= 0 ==> (r == Err::<
        (),
        EngineError,
    >(EngineError::Internal) <==> avail_of(pre.balance_manager.entries@, user_id, aidx)
        + frozen_of(pre.balance_manager.entries@, user_id, aidx) + rd_pos > MAX_MANTISSA))
    &&& (r is Err ==> (r == Err::<(), EngineError>(EngineError::ServiceUnavailable) || r == Err::<
        (),
        EngineError,
    >(EngineError::InvalidArgument) || r == Err::<(), EngineError>(EngineError::RepeatUpdate) || r
        == Err::<(), EngineError>(EngineError::InsufficientBalance) || r == Err::<
        (),
        EngineError,
    >(EngineError::Internal)))
    &&& (r is Err ==> post.persistor.messages@ == pre.persistor.messages@ && post.op_log@
        == pre.op_log@ && post.sequencer.operation_log_id == pre.sequencer.operation_log_id)
    &&& (r is Err ==> post.balance_manager.entries@ == pre.balance_manager.entries@)
    &&& (r is Ok && dup ==> post.balance_manager.entries@ == pre.balance_manager.entries@)
    &&& (r is Ok && !dup && delta.mantissa >= 0 ==> avail_of(
        post.balance_manager.entries@,
        user_id,
        aidx,
    ) == avail_of(pre.balance_manager.entries@, user_id, aidx) + rd_pos)
    &&& (r is Ok && !dup && delta.mantissa < 0 ==> avail_of(
        post.balance_manager.entries@,
        user_id,
        aidx,
    ) == avail_of(pre.balance_manager.entries@, user_id, aidx) - rd_neg)
    &&& (forall|u2: u32, a2: u32|
        !(known && u2 == user_id && a2 == aidx) ==> #[trigger] avail_of(
            post.balance_manager.entries@,
            u2,
            a2,
        ) == avail_of(pre.balance_manager.entries@, u2, a2))
    &&& (forall|u2: u32, a2: u32|
        #[trigger] frozen_of(post.balance_manager.entries@, u2, a2) == frozen_of(
            pre.balance_manager.entries@,
            u2,
            a2,
        ))
    &&& post.markets@ == pre.markets@
    &&& post.settings == pre.settings
    &&& post.sequencer.order_id == pre.sequencer.order_id
    &&& post.sequencer.trade_id == pre.sequencer.trade_id
    &&& (!real_mode ==> post.persistor.messages@ == pre.persistor.messages@ && post.op_log@
        == pre.op_log@)
    &&& (real_mode && r is Ok ==> post.op_log@.len() == pre.op_log@.len() + 1)
    &&& (!(real_mode && r is Ok) ==> post.op_log@ == pre.op_log@)
}

/// Everything `Controller::transfer` does.  `now` is the idempotency
/// key both ledger changes are remembered under; a transfer to oneself
/// is rejected outright, so no partial effect can arise.
pub open spec fn transfer_effect(
    pre: Controller,
    post: Controller,
    asset: Seq<char>,
    to: u32,
    delta: Decimal,
    user_id: u32,
    now: u64,
    real_mode: bool,
    r: Result<TransferResponse, EngineError>,
) -> bool {
    let am = pre.balance_manager.asset_manager.assets@;
    let known = has_asset(am, asset);
    let ai = crate::asset::asset_index(am, asset);
    let aidx = ai as u32;
    let bal = avail_of(pre.balance_manager.entries@, user_id, aidx);
    let prec = am[ai].prec_save as nat;
    let rd = round_half_at(delta.mantissa as int, prec);
    let refused = delta.mantissa <= 0 || delta.mantissa > bal || rd > bal;
    let dup = has_update_key(
        pre.update_controller.entries@,
        user_id,
        aidx,
        transfer_business_label(),
        now,
    ) || has_update_key(pre.update_controller.entries@, to, aidx, transfer_business_label(), now);
    let payee_full = avail_of(pre.balance_manager.entries@, to, aidx) + frozen_of(
        pre.balance_manager.entries@,
        to,
        aidx,
    ) + rd > MAX_MANTISSA;
    &&& (r == Err::<TransferResponse, EngineError>(EngineError::ServiceUnavailable) <==> !gate_open(
        pre,
    ))
    &&& (gate_open(pre) ==> (r == Err::<TransferResponse, EngineError>(
        EngineError::InvalidArgument,
    ) <==> (!known || to == user_id)))
    &&& ((r is Ok && !r->Ok_0.success) <==> (gate_open(pre) && known && to != user_id && refused))
    &&& (gate_open(pre) && known && to != user_id && !refused ==> (r == Err::<
        TransferResponse,
        EngineError,
    >(EngineError::RepeatUpdate) <==> dup))
    &&& (gate_open(pre) && known && to != user_id && !refused && !dup ==> (r == Err::<
        TransferResponse,
        EngineError,
    >(EngineError::Internal) <==> payee_full))
    &&& (gate_open(pre) && known && to != user_id && !refused && !dup && !payee_full ==> (r is Ok
        && r->Ok_0.success))
    &&& (r is Ok && !r->Ok_0.success ==> post.balance_manager.entries@
        == pre.balance_manager.entries@ && r->Ok_0.balance_from.mantissa == bal
        && r->Ok_0.asset == aidx && post.op_log@ == pre.op_log@ && post.persistor.messages@
        == pre.persistor.messages@)
    &&& (r is Ok && r->Ok_0.success ==> ({
        &&& (forall|u2: u32, a2: u32|
            #[trigger] avail_of(post.balance_manager.entries@, u2, a2) == avail_of(
                pre.balance_manager.entries@,
                u2,
                a2,
            ) - (if u2 == user_id && a2 == aidx {
                rd
            } else {
                0
            }) + (if u2 == to && a2 == aidx {
                rd
            } else {
                0
            }))
        &&& r->Ok_0.balance_from.mantissa == avail_of(post.balance_manager.entries@, user_id, aidx)
        &&& r->Ok_0.asset == aidx
        &&& (real_mode ==> post.persistor.messages@.len() > pre.persistor.messages@.len()
            && post.persistor.messages@.last() == Message::TransferMessage(
            InternalTx {
                time: now,
                user_from: user_id,
                user_to: to,
                asset: aidx,
                amount: Decimal { mantissa: rd as i128 },
            },
        ))
        &&& (real_mode ==> post.op_log@.len() == pre.op_log@.len() + 1)
    }))
    &&& (r is Err ==> post.balance_manager.entries@ == pre.balance_manager.entries@ && post.op_log@
        == pre.op_log@ && post.persistor.messages@ == pre.persistor.messages@)
    &&& (forall|u2: u32, a2: u32|
        #[trigger] frozen_of(post.balance_manager.entries@, u2, a2) == frozen_of(
            pre.balance_manager.entries@,
            u2,
            a2,
        ))
    &&& post.markets@ == pre.markets@
    &&& post.settings == pre.settings
    &&& post.sequencer.order_id == pre.sequencer.order_id
    &&& post.sequencer.trade_id == pre.sequencer.trade_id
    &&& (!real_mode ==> post.persistor.messages@ == pre.persistor.messages@ && post.op_log@
        == pre.op_log@)
}

/// The view of the label every transfer is remembered under.
pub open spec fn transfer_business_label() -> Seq<char> {
    "transfer"@
}

/// Everything `Controller::order_put` does: the service gate, the
/// per-user cap, the market's own validation, the up-front freeze of a
/// limit order, the matching outcome — the books stay uncrossed (part
/// of well-formedness), the remainder rests exactly when something of
/// it is left frozen, a market taker runs until filled, starved or out
/// of opposite orders — and the frozen-balance coupling.
/// Whether market `m` lists `asset` as base against a quote asset
/// whose id reads `USDT`.
pub open spec fn quotes_in_usdt(m: Market, ams: Seq<Asset>, asset: u32) -> bool {
    &&& m.base == asset
    &&& 0 <= m.quote < ams.len()
    &&& ams[m.quote as int].id@ == "USDT"@
}

/// Exactly when [`Controller::market_reload`] succeeds: the asset batch
/// fits and is acceptable, the market entries fit, every entry's name is
/// fresh and the names are pairwise distinct, and every entry is
/// acceptable against the catalog as it stands after the asset append
/// (`post_assets`).
pub open spec fn reload_acceptable(
    pre: Controller,
    post_assets: Seq<Asset>,
    assets: Seq<Asset>,
    markets: Seq<config::Market>,
) -> bool {
    &&& assets.len() <= u32::MAX
    &&& pre.balance_manager.asset_manager.assets@.len() <= u32::MAX - assets.len()
    &&& crate::asset::append_valid(pre.balance_manager.asset_manager.assets@, assets)
    &&& pre.markets@.len() + markets.len() <= u32::MAX
    &&& (forall|k: int|
        0 <= k < markets.len() ==> !has_market(pre.markets@, (#[trigger] markets[k]).name@))
    &&& (forall|j: int, k: int| 0 <= j < k < markets.len() ==> markets[j].name@ !== markets[k].name@)
    &&& (forall|k: int|
        0 <= k < markets.len() ==> crate::market::market_config_acceptable(
            #[trigger] markets[k],
            post_assets,
        ))
}

pub open spec fn order_put_effect(
    pre: Controller,
    post: Controller,
    market: Seq<char>,
    order_side: OrderSide,
    order_type: OrderType,
    amount: Decimal,
    price: Decimal,
    quote_limit: Decimal,
    taker_fee: Decimal,
    maker_fee: Decimal,
    post_only: bool,
    user_id: u32,
    now: u64,
    real_mode: bool,
    r: Result<Order, EngineError>,
) -> bool {
    let mk = has_market(pre.markets@, market);
    let mi = market_index(pre.markets@, market);
    let m0 = pre.markets@[mi];
    let acceptable = m0.order_acceptable(
        order_side,
        order_type,
        amount,
        price,
        quote_limit,
        taker_fee,
        maker_fee,
        post_only,
        pre.settings.disable_market_order,
    );
    let capped = total_open_orders(pre.markets@, user_id)
        >= pre.settings.user_order_num_limit as int;
    let full = m0.asks@.len() + m0.bids@.len() >= crate::market::BOOK_CAP;
    let freeze = m0.freeze_amount_of(order_side, amount, price);
    let fasset = m0.frozen_asset(order_side);
    &&& (r == Err::<Order, EngineError>(EngineError::ServiceUnavailable) <==> !gate_open(pre))
    &&& (gate_open(pre) ==> (r == Err::<Order, EngineError>(EngineError::TooManyActiveOrders)
        <==> (mk && capped)))
    &&& (gate_open(pre) && !(mk && capped) ==> (r == Err::<Order, EngineError>(
        EngineError::InvalidArgument,
    ) <==> (!mk || !acceptable)))
    &&& (gate_open(pre) && mk && !capped && acceptable ==> (r == Err::<Order, EngineError>(
        EngineError::Internal,
    ) <==> full))
    &&& (gate_open(pre) && mk && !capped && acceptable && !full ==> (r == Err::<
        Order,
        EngineError,
    >(EngineError::InsufficientBalance) <==> (order_type == OrderType::LIMIT && avail_of(
        pre.balance_manager.entries@,
        user_id,
        fasset,
    ) < freeze)))
    &&& (r is Err ==> post.markets@ == pre.markets@ && post.balance_manager.entries@
        == pre.balance_manager.entries@ && post.sequencer.order_id == pre.sequencer.order_id)
    &&& (r is Err ==> (r == Err::<Order, EngineError>(EngineError::ServiceUnavailable) || r
        == Err::<Order, EngineError>(EngineError::TooManyActiveOrders) || r == Err::<
        Order,
        EngineError,
    >(EngineError::InvalidArgument) || r == Err::<Order, EngineError>(EngineError::Internal) || r
        == Err::<Order, EngineError>(EngineError::InsufficientBalance)))
    &&& (r is Err ==> post.persistor.messages@ == pre.persistor.messages@ && post.op_log@
        == pre.op_log@ && post.sequencer.trade_id == pre.sequencer.trade_id
        && post.sequencer.operation_log_id == pre.sequencer.operation_log_id)
    &&& (forall|k: int|
        0 <= k < pre.persistor.messages@.len() ==> #[trigger] post.persistor.messages@[k]
            == pre.persistor.messages@[k])
    &&& pre.persistor.messages@.len() <= post.persistor.messages@.len()
    &&& (forall|k: int|
        pre.persistor.messages@.len() <= k < post.persistor.messages@.len()
            && (#[trigger] post.persistor.messages@[k]) is TradeMessage ==> trade_sane(
            post.persistor.messages@[k]->TradeMessage_0,
            m0.idx,
        ))
    &&& (r is Ok ==> ({
        let o = r->Ok_0;
        let mn = post.markets@[mi];
        &&& crate::order::order_wf(o)
        &&& o.id == pre.sequencer.order_id
        &&& post.sequencer.order_id == pre.sequencer.order_id + 1
        &&& o.user == user_id
        &&& o.market == m0.idx
        &&& o.side == order_side
        &&& o.type_ == order_type
        &&& o.post_only == post_only
        &&& o.price == price
        &&& o.amount.mantissa == round_half_at(amount.mantissa as int, m0.amount_prec as nat)
        &&& o.maker_fee == maker_fee
        &&& o.taker_fee == taker_fee
        &&& o.create_time == now
        &&& o.finished_base.mantissa + o.remain.mantissa == o.amount.mantissa
        &&& post.markets@.len() == pre.markets@.len()
        &&& (forall|k: int| 0 <= k < pre.markets@.len() && k != mi ==> #[trigger] post.markets@[k]
            == pre.markets@[k])
        &&& ((o.type_ == OrderType::LIMIT && o.remain.mantissa > 0 && o.frozen.mantissa > 0)
            <==> (if order_side == OrderSide::ASK {
            exists|j: int| 0 <= j < mn.asks@.len() && mn.asks@[j] == o
        } else {
            exists|j: int| 0 <= j < mn.bids@.len() && mn.bids@[j] == o
        }))
        &&& (o.type_ == OrderType::MARKET ==> (o.remain.mantissa == 0 || (if o.side
            == OrderSide::ASK {
            mn.bids@.len() == 0
        } else {
            mn.asks@.len() == 0
        }) || market_taker_starved(mn, post.balance_manager, o, quote_limit)
            || matching_resources_exhausted(mn, post.balance_manager, post.sequencer, o)))
        &&& (o.type_ == OrderType::LIMIT && !o.post_only && o.remain.mantissa > 0
            && o.frozen.mantissa == 0 ==> matching_resources_exhausted(
            mn,
            post.balance_manager,
            post.sequencer,
            o,
        ))
        &&& (o.type_ == OrderType::LIMIT && o.post_only && o.remain.mantissa > 0
            && o.frozen.mantissa == 0 ==> (matching_resources_exhausted(
            mn,
            post.balance_manager,
            post.sequencer,
            o,
        ) || (if order_side == OrderSide::ASK {
            m0.bids@.len() > 0 && price.mantissa <= m0.bids@[0].price.mantissa && mn.bids@
                == m0.bids@
        } else {
            m0.asks@.len() > 0 && price.mantissa >= m0.asks@[0].price.mantissa && mn.asks@
                == m0.asks@
        })))
        &&& (forall|u: u32|
            #[trigger] frozen_of(post.balance_manager.entries@, u, m0.base) - frozen_of(
                pre.balance_manager.entries@,
                u,
                m0.base,
            ) == user_frozen(mn.asks@, u) - user_frozen(m0.asks@, u))
        &&& (forall|u: u32|
            #[trigger] frozen_of(post.balance_manager.entries@, u, m0.quote) - frozen_of(
                pre.balance_manager.entries@,
                u,
                m0.quote,
            ) == user_frozen(mn.bids@, u) - user_frozen(m0.bids@, u))
        &&& (forall|u2: u32, a2: u32|
            a2 != m0.base && a2 != m0.quote ==> #[trigger] frozen_of(
                post.balance_manager.entries@,
                u2,
                a2,
            ) == frozen_of(pre.balance_manager.entries@, u2, a2))
        &&& (forall|u2: u32, a2: u32|
            a2 != m0.base && a2 != m0.quote ==> #[trigger] avail_of(
                post.balance_manager.entries@,
                u2,
                a2,
            ) == avail_of(pre.balance_manager.entries@, u2, a2))
    }))
    &&& post.settings == pre.settings
    &&& post.sequencer.trade_id >= pre.sequencer.trade_id
    &&& post.sequencer.operation_log_id >= pre.sequencer.operation_log_id
    &&& (!real_mode ==> post.persistor.messages@ == pre.persistor.messages@ && post.op_log@
        == pre.op_log@)
    &&& (real_mode && r is Ok ==> post.op_log@.len() == pre.op_log@.len() + 1)
    &&& (!(real_mode && r is Ok) ==> post.op_log@ == pre.op_log@)
}

/// Everything `Controller::order_cancel` does.
pub open spec fn order_cancel_effect(
    pre: Controller,
    post: Controller,
    market: Seq<char>,
    order_id: u64,
    user_id: u32,
    real_mode: bool,
    r: Result<Order, EngineError>,
) -> bool {
    let mk = has_market(pre.markets@, market);
    let mi = market_index(pre.markets@, market);
    let m0 = pre.markets@[mi];
    let resting = has_order_id(m0.asks@, order_id) || has_order_id(m0.bids@, order_id);
    let o = order_with_id(m0, order_id);
    &&& (r == Err::<Order, EngineError>(EngineError::ServiceUnavailable) <==> !gate_open(pre))
    &&& (gate_open(pre) ==> (r == Err::<Order, EngineError>(EngineError::InvalidArgument) <==> (
    !mk || (resting && o.user != user_id))))
    &&& (gate_open(pre) && mk ==> (r == Err::<Order, EngineError>(EngineError::NotFound) <==> !resting))
    &&& (r is Ok <==> (gate_open(pre) && mk && resting && o.user == user_id))
    &&& (r is Ok ==> ({
        &&& r->Ok_0 == o
        &&& post.markets@.len() == pre.markets@.len()
        &&& (forall|k: int| 0 <= k < pre.markets@.len() && k != mi ==> #[trigger] post.markets@[k]
            == pre.markets@[k])
        &&& post.markets@[mi].asks@ == (if o.side == OrderSide::ASK {
            m0.asks@.remove(crate::market::index_of_order(m0.asks@, order_id))
        } else {
            m0.asks@
        })
        &&& post.markets@[mi].bids@ == (if o.side == OrderSide::BID {
            m0.bids@.remove(crate::market::index_of_order(m0.bids@, order_id))
        } else {
            m0.bids@
        })
        &&& (forall|u2: u32, a2: u32|
            #[trigger] avail_of(post.balance_manager.entries@, u2, a2) == avail_of(
                pre.balance_manager.entries@,
                u2,
                a2,
            ) + (if u2 == o.user && a2 == m0.frozen_asset(o.side) {
                o.frozen.mantissa as int
            } else {
                0
            }))
        &&& (forall|u2: u32, a2: u32|
            #[trigger] frozen_of(post.balance_manager.entries@, u2, a2) == frozen_of(
                pre.balance_manager.entries@,
                u2,
                a2,
            ) - (if u2 == o.user && a2 == m0.frozen_asset(o.side) {
                o.frozen.mantissa as int
            } else {
                0
            }))
    }))
    &&& (r is Err ==> post.markets@ == pre.markets@ && post.balance_manager.entries@
        == pre.balance_manager.entries@)
    &&& (r is Err ==> post.persistor.messages@ == pre.persistor.messages@
        && post.sequencer.operation_log_id == pre.sequencer.operation_log_id)
    &&& post.settings == pre.settings
    &&& post.sequencer.order_id == pre.sequencer.order_id
    &&& post.sequencer.trade_id == pre.sequencer.trade_id
    &&& (!real_mode ==> post.persistor.messages@ == pre.persistor.messages@ && post.op_log@
        == pre.op_log@)
    &&& (real_mode && r is Ok ==> post.op_log@.len() == pre.op_log@.len() + 1)
    &&& (!(real_mode && r is Ok) ==> post.op_log@ == pre.op_log@)
}

/// Everything the cancel sweep of one user in one market does: every
/// resting order of the user leaves the books at `mi`, its frozen value
/// returns to the available balance, other users and markets are
/// untouched, and no journal entry is written.
pub open spec fn cancel_sweep_effect(
    pre: Controller,
    post: Controller,
    mi: int,
    user_id: u32,
    real_mode: bool,
    count: int,
) -> bool {
    let m0 = pre.markets@[mi];
    &&& count == user_order_count(m0.asks@, user_id) + user_order_count(m0.bids@, user_id)
    &&& post.markets@.len() == pre.markets@.len()
    &&& (forall|k: int| 0 <= k < pre.markets@.len() && k != mi ==> #[trigger] post.markets@[k]
        == pre.markets@[k])
    &&& user_order_count(post.markets@[mi].asks@, user_id) == 0
    &&& user_order_count(post.markets@[mi].bids@, user_id) == 0
    &&& user_frozen(post.markets@[mi].asks@, user_id) == 0
    &&& user_frozen(post.markets@[mi].bids@, user_id) == 0
    &&& (forall|u2: u32|
        u2 != user_id ==> #[trigger] user_order_count(post.markets@[mi].asks@, u2)
            == user_order_count(m0.asks@, u2) && user_order_count(post.markets@[mi].bids@, u2)
            == user_order_count(m0.bids@, u2))
    &&& (forall|u2: u32, a2: u32|
        #[trigger] avail_of(post.balance_manager.entries@, u2, a2) == avail_of(
            pre.balance_manager.entries@,
            u2,
            a2,
        ) + (if u2 == user_id && a2 == m0.base {
            user_frozen(m0.asks@, user_id)
        } else {
            0
        }) + (if u2 == user_id && a2 == m0.quote {
            user_frozen(m0.bids@, user_id)
        } else {
            0
        }))
    &&& (forall|u2: u32, a2: u32|
        #[trigger] frozen_of(post.balance_manager.entries@, u2, a2) == frozen_of(
            pre.balance_manager.entries@,
            u2,
            a2,
        ) - (if u2 == user_id && a2 == m0.base {
            user_frozen(m0.asks@, user_id)
        } else {
            0
        }) - (if u2 == user_id && a2 == m0.quote {
            user_frozen(m0.bids@, user_id)
        } else {
            0
        }))
    &&& post.settings == pre.settings
    &&& post.sequencer == pre.sequencer
    &&& post.op_log@ == pre.op_log@
    &&& (!real_mode ==> post.persistor.messages@ == pre.persistor.messages@)
    &&& (forall|k: int|
        0 <= k < pre.persistor.messages@.len() ==> #[trigger] post.persistor.messages@[k]
            == pre.persistor.messages@[k])
    &&& pre.persistor.messages@.len() <= post.persistor.messages@.len()
    &&& post.update_controller == pre.update_controller
    &&& post.service_suspended == pre.service_suspended
    &&& post.balance_manager.asset_manager == pre.balance_manager.asset_manager
}

/// Everything `Controller::order_cancel_all` does.
pub open spec fn order_cancel_all_effect(
    pre: Controller,
    post: Controller,
    market: Seq<char>,
    user_id: u32,
    real_mode: bool,
    r: Result<usize, EngineError>,
) -> bool {
    let mk = has_market(pre.markets@, market);
    let mi = market_index(pre.markets@, market);
    let m0 = pre.markets@[mi];
    &&& (r == Err::<usize, EngineError>(EngineError::ServiceUnavailable) <==> !gate_open(pre))
    &&& (gate_open(pre) ==> (r == Err::<usize, EngineError>(EngineError::InvalidArgument) <==> !mk))
    &&& (r is Ok <==> (gate_open(pre) && mk))
    &&& (r is Ok ==> ({
        &&& r->Ok_0 == user_order_count(m0.asks@, user_id) + user_order_count(m0.bids@, user_id)
        &&& post.markets@.len() == pre.markets@.len()
        &&& (forall|k: int| 0 <= k < pre.markets@.len() && k != mi ==> #[trigger] post.markets@[k]
            == pre.markets@[k])
        &&& user_order_count(post.markets@[mi].asks@, user_id) == 0
        &&& user_order_count(post.markets@[mi].bids@, user_id) == 0
        &&& user_frozen(post.markets@[mi].asks@, user_id) == 0
        &&& user_frozen(post.markets@[mi].bids@, user_id) == 0
        &&& (forall|u2: u32|
            u2 != user_id ==> #[trigger] user_order_count(post.markets@[mi].asks@, u2)
                == user_order_count(m0.asks@, u2) && user_order_count(post.markets@[mi].bids@, u2)
                == user_order_count(m0.bids@, u2))
        &&& (forall|u2: u32, a2: u32|
            #[trigger] avail_of(post.balance_manager.entries@, u2, a2) == avail_of(
                pre.balance_manager.entries@,
                u2,
                a2,
            ) + (if u2 == user_id && a2 == m0.base {
                user_frozen(m0.asks@, user_id)
            } else {
                0
            }) + (if u2 == user_id && a2 == m0.quote {
                user_frozen(m0.bids@, user_id)
            } else {
                0
            }))
        &&& (forall|u2: u32, a2: u32|
            #[trigger] frozen_of(post.balance_manager.entries@, u2, a2) == frozen_of(
                pre.balance_manager.entries@,
                u2,
                a2,
            ) - (if u2 == user_id && a2 == m0.base {
                user_frozen(m0.asks@, user_id)
            } else {
                0
            }) - (if u2 == user_id && a2 == m0.quote {
                user_frozen(m0.bids@, user_id)
            } else {
                0
            }))
    }))
    &&& (r is Err ==> post.markets@ == pre.markets@ && post.balance_manager.entries@
        == pre.balance_manager.entries@)
    &&& (r is Err ==> post.persistor.messages@ == pre.persistor.messages@
        && post.sequencer.operation_log_id == pre.sequencer.operation_log_id)
    &&& post.settings == pre.settings
    &&& post.sequencer.order_id == pre.sequencer.order_id
    &&& post.sequencer.trade_id == pre.sequencer.trade_id
    &&& (!real_mode ==> post.persistor.messages@ == pre.persistor.messages@ && post.op_log@
        == pre.op_log@)
    &&& (real_mode && r is Ok ==> post.op_log@.len() == pre.op_log@.len() + 1)
    &&& (!(real_mode && r is Ok) ==> post.op_log@ == pre.op_log@)
}

/// A change that leaves every frozen balance alone leaves the
/// frozen-balance coupling standing.
pub proof fn lemma_coupling_kept(
    ms: Seq<Market>,
    pre: Seq<crate::balance::BalanceEntry>,
    post: Seq<crate::balance::BalanceEntry>,
)
    requires
        forall|u: u32, a: u32| #[trigger] frozen_of(post, u, a) == frozen_of(pre, u, a),
        forall|u: u32, a: u32| #[trigger] frozen_of(pre, u, a) == total_frozen(ms, u, a),
    ensures
        forall|u: u32, a: u32| #[trigger] frozen_of(post, u, a) == total_frozen(ms, u, a),
{
}

/// Under the coupling, each market's books are covered by the ledger's
/// frozen balances.
pub proof fn lemma_market_freeze_cover(
    ms: Seq<Market>,
    k: int,
    bme: Seq<crate::balance::BalanceEntry>,
    am: AssetManager,
)
    requires
        0 <= k < ms.len(),
        forall|j: int| 0 <= j < ms.len() ==> (#[trigger] ms[j]).wf(am),
        forall|u: u32, a: u32| #[trigger] frozen_of(bme, u, a) == total_frozen(ms, u, a),
    ensures
        forall|u: u32|
            #[trigger] frozen_of(bme, u, ms[k].base) >= user_frozen(ms[k].asks@, u),
        forall|u: u32|
            #[trigger] frozen_of(bme, u, ms[k].quote) >= user_frozen(ms[k].bids@, u),
{
    let m0 = ms[k];
    assert forall|u2: u32| #[trigger] frozen_of(bme, u2, m0.base) >= user_frozen(
        m0.asks@,
        u2,
    ) by {
        assert forall|j: int|
            0 <= j < ms.len() implies #[trigger] market_contrib(ms[j], u2, m0.base) >= 0 by {
            lemma_contrib_nonneg(ms[j], am, u2, m0.base);
        }
        lemma_total_frozen_member(ms, k, u2, m0.base);
        assert(market_contrib(m0, u2, m0.base) >= user_frozen(m0.asks@, u2)) by {
            assert(forall|j: int|
                0 <= j < m0.bids@.len() ==> (#[trigger] m0.bids@[j].frozen.mantissa) >= 0);
            crate::market::lemma_user_frozen_nonneg(m0.bids@, u2);
        }
    }
    assert forall|u2: u32| #[trigger] frozen_of(bme, u2, m0.quote) >= user_frozen(
        m0.bids@,
        u2,
    ) by {
        assert forall|j: int|
            0 <= j < ms.len() implies #[trigger] market_contrib(ms[j], u2, m0.quote) >= 0 by {
            lemma_contrib_nonneg(ms[j], am, u2, m0.quote);
        }
        lemma_total_frozen_member(ms, k, u2, m0.quote);
        assert(market_contrib(m0, u2, m0.quote) >= user_frozen(m0.bids@, u2)) by {
            assert(forall|j: int|
                0 <= j < m0.asks@.len() ==> (#[trigger] m0.asks@[j].frozen.mantissa) >= 0);
            crate::market::lemma_user_frozen_nonneg(m0.asks@, u2);
        }
    }
}

/// One market changed and the ledger moved in step with its books:
/// the coupling holds again.
pub proof fn lemma_recouple(
    ms: Seq<Market>,
    k: int,
    mn: Market,
    bme_old: Seq<crate::balance::BalanceEntry>,
    bme_new: Seq<crate::balance::BalanceEntry>,
)
    requires
        0 <= k < ms.len(),
        mn.base == ms[k].base,
        mn.quote == ms[k].quote,
        mn.base != mn.quote,
        forall|u: u32|
            #[trigger] frozen_of(bme_new, u, mn.base) - frozen_of(bme_old, u, mn.base)
                == user_frozen(mn.asks@, u) - user_frozen(ms[k].asks@, u),
        forall|u: u32|
            #[trigger] frozen_of(bme_new, u, mn.quote) - frozen_of(bme_old, u, mn.quote)
                == user_frozen(mn.bids@, u) - user_frozen(ms[k].bids@, u),
        forall|u: u32, a: u32|
            a != mn.base && a != mn.quote ==> #[trigger] frozen_of(bme_new, u, a) == frozen_of(
                bme_old,
                u,
                a,
            ),
        forall|u: u32, a: u32| #[trigger] frozen_of(bme_old, u, a) == total_frozen(ms, u, a),
    ensures
        forall|u: u32, a: u32|
            #[trigger] frozen_of(bme_new, u, a) == total_frozen(ms.update(k, mn), u, a),
{
    assert forall|u2: u32, a2: u32| #[trigger] frozen_of(bme_new, u2, a2) == total_frozen(
        ms.update(k, mn),
        u2,
        a2,
    ) by {
        lemma_total_frozen_update(ms, k, mn, u2, a2);
        if a2 == mn.base {
            assert(market_contrib(mn, u2, a2) - market_contrib(ms[k], u2, a2) == user_frozen(
                mn.asks@,
                u2,
            ) - user_frozen(ms[k].asks@, u2));
        } else if a2 == mn.quote {
            assert(market_contrib(mn, u2, a2) - market_contrib(ms[k], u2, a2) == user_frozen(
                mn.bids@,
                u2,
            ) - user_frozen(ms[k].bids@, u2));
        } else {
            assert(market_contrib(mn, u2, a2) == market_contrib(ms[k], u2, a2));
        }
    }
}

/// Markets with empty books keep nothing frozen.
pub proof fn lemma_total_frozen_empty(ms: Seq<Market>, u: u32, a: u32)
    requires
        forall|j: int|
            0 <= j < ms.len() ==> (#[trigger] ms[j]).asks@.len() == 0 && ms[j].bids@.len() == 0,
    ensures
        total_frozen(ms, u, a) == 0,
    decreases ms.len(),
{
    if ms.len() > 0 {
        assert(forall|j: int|
            0 <= j < ms.drop_last().len() ==> (#[trigger] ms.drop_last()[j]).asks@.len() == 0
                && ms.drop_last()[j].bids@.len() == 0);
        lemma_total_frozen_empty(ms.drop_last(), u, a);
    }
}

/// Fresh copies of a whole asset list.
pub fn duplicate_assets(v: &Vec<Asset>) -> (r: Vec<Asset>)
    ensures
        r@.len() == v@.len(),
        forall|i: int| 0 <= i < v@.len() ==> (#[trigger] r@[i])@ == v@[i]@,
{
    let n = v.len();
    let mut out: Vec<Asset> = Vec::new();
    let mut i: usize = 0;
    while i < n
        invariant
            n == v@.len(),
            i <= n,
            out@.len() == i,
            forall|j: int| 0 <= j < i ==> (#[trigger] out@[j])@ == v@[j]@,
        decreases n - i,
    {
        out.push(v[i].duplicate());
        i = i + 1;
    }
    out
}

} // verus!
