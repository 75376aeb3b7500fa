//! Snapshots: a dump of the live state — watermarks, balances and open
//! orders — and the loader that rebuilds an engine from one.

use vstd::prelude::*;
use crate::balance::BalanceEntry;
use crate::config::Settings;
use crate::controller::Controller;
use crate::decimal::Decimal;
use crate::market::Market;
use crate::balance::{avail_of, frozen_of, has_entry};
use crate::controller::{market_contrib, total_frozen, update_keys_unique};
use crate::market::ids_below;
use crate::decimal::MAX_MANTISSA;
use crate::order::{user_frozen, OrderSide};
use crate::order::Order;
use crate::EngineError;

verus! {

/// The watermarks a snapshot covers: the last issued id of each stream.
#[derive(Clone, Copy, Debug, PartialEq, Eq, Structural)]
pub struct SliceHistory {
    pub time: u64,
    pub end_operation_log_id: u64,
    pub end_order_id: u64,
    pub end_trade_id: u64,
}

/// A complete logical snapshot of the engine's mutable state.
pub struct Snapshot {
    pub history: SliceHistory,
    pub balances: Vec<BalanceEntry>,
    pub orders: Vec<Order>,
}

/// Whether `o` rests, with exactly these fields, in some book of `ms`.
pub open spec fn order_in_markets(ms: Seq<Market>, o: Order) -> bool {
    exists|mi: int, j: int|
        0 <= mi < ms.len() && ((0 <= j < ms[mi].asks@.len() && ms[mi].asks@[j] == o) || (0 <= j
            < ms[mi].bids@.len() && ms[mi].bids@[j] == o))
}

/// How many orders rest across all books of `ms`.
pub open spec fn total_book_orders(ms: Seq<Market>) -> int
    decreases ms.len(),
{
    if ms.len() == 0 {
        0
    } else {
        total_book_orders(ms.drop_last()) + ms.last().asks@.len() + ms.last().bids@.len()
    }
}

pub proof fn lemma_total_book_orders_update(ms: Seq<Market>, i: int, mn: Market)
    requires
        0 <= i < ms.len(),
    ensures
        total_book_orders(ms.update(i, mn)) == total_book_orders(ms) - ms[i].asks@.len()
            - ms[i].bids@.len() + mn.asks@.len() + mn.bids@.len(),
    decreases ms.len(),
{
    let t = ms.update(i, mn);
    if i == ms.len() - 1 {
        assert(t.last() == mn);
        assert(t.drop_last() =~= ms.drop_last());
    } else {
        assert(t.last() == ms.last());
        assert(t.drop_last() =~= ms.drop_last().update(i, mn));
        lemma_total_book_orders_update(ms.drop_last(), i, mn);
    }
}

pub proof fn lemma_total_book_orders_empty(ms: Seq<Market>)
    requires
        forall|j: int|
            0 <= j < ms.len() ==> (#[trigger] ms[j]).asks@.len() == 0 && ms[j].bids@.len() == 0,
    ensures
        total_book_orders(ms) == 0,
    decreases ms.len(),
{
    if ms.len() > 0 {
        assert(forall|j: int|
            0 <= j < ms.drop_last().len() ==> (#[trigger] ms.drop_last()[j]).asks@.len() == 0
                && ms.drop_last()[j].bids@.len() == 0);
        lemma_total_book_orders_empty(ms.drop_last());
    }
}

/// Every open order of every market, in book order: per market, asks
/// before bids, each best-first.
pub open spec fn dump_orders(ms: Seq<Market>) -> Seq<Order>
    decreases ms.len(),
{
    if ms.len() == 0 {
        Seq::empty()
    } else {
        dump_orders(ms.drop_last()) + ms.last().asks@ + ms.last().bids@
    }
}

impl Controller {
    /// Dumps the mutable state: the three watermarks, every ledger cell,
    /// and every open order in book order.
    pub fn make_slice(&self, now: u64) -> (r: Snapshot)
        requires
            self.sequencer.order_id >= 1,
            self.sequencer.trade_id >= 1,
            self.sequencer.operation_log_id >= 1,
        ensures
            r.history.time == now,
            r.history.end_operation_log_id == self.sequencer.operation_log_id - 1,
            r.history.end_order_id == self.sequencer.order_id - 1,
            r.history.end_trade_id == self.sequencer.trade_id - 1,
            r.balances@ == self.balance_manager.entries@,
            r.orders@ == dump_orders(self.markets@),
    {
        let history = SliceHistory {
            time: now,
            end_operation_log_id: self.sequencer.operation_log_id - 1,
            end_order_id: self.sequencer.order_id - 1,
            end_trade_id: self.sequencer.trade_id - 1,
        };
        let mut balances: Vec<BalanceEntry> = Vec::new();
        let nb = self.balance_manager.entries.len();
        let mut i: usize = 0;
        while i < nb
            invariant
                nb == self.balance_manager.entries@.len(),
                i <= nb,
                balances@ == self.balance_manager.entries@.take(i as int),
            decreases nb - i,
        {
            proof {
                assert(self.balance_manager.entries@.take(i + 1).drop_last()
                    =~= self.balance_manager.entries@.take(i as int));
                assert(self.balance_manager.entries@.take(i + 1)
                    =~= self.balance_manager.entries@.take(i as int).push(
                    self.balance_manager.entries@[i as int],
                ));
            }
            balances.push(self.balance_manager.entries[i]);
            i = i + 1;
        }
        proof {
            assert(self.balance_manager.entries@.take(nb as int)
                =~= self.balance_manager.entries@);
        }
        let mut orders: Vec<Order> = Vec::new();
        let nm = self.markets.len();
        let mut k: usize = 0;
        while k < nm
            invariant
                nm == self.markets@.len(),
                k <= nm,
                orders@ == dump_orders(self.markets@.take(k as int)),
            decreases nm - k,
        {
            proof {
                assert(self.markets@.take(k + 1).drop_last() =~= self.markets@.take(k as int));
                assert(self.markets@.take(k + 1).last() == self.markets@[k as int]);
            }
            append_orders(&mut orders, &self.markets[k].asks);
            append_orders(&mut orders, &self.markets[k].bids);
            k = k + 1;
        }
        proof {
            assert(self.markets@.take(nm as int) =~= self.markets@);
        }
        Snapshot { history, balances, orders }
    }

    /// Rebuilds an engine from a snapshot: fresh markets from the
    /// settings, the sequencer set past the watermarks, the ledger rows
    /// and the open orders re-admitted through full validation — and a
    /// final audit that every frozen balance equals the frozen sums of
    /// the re-admitted orders, so the result is well-formed.
    #[verifier::rlimit(100)]
    #[verifier::spinoff_prover]
    pub fn load_slice(settings: Settings, snap: &Snapshot) -> (r: Result<
        Controller,
        EngineError,
    >)
        ensures
            r is Err ==> r == Err::<Controller, EngineError>(EngineError::InvalidArgument) || r
                == Err::<Controller, EngineError>(EngineError::Internal),
            r is Ok ==> ({
                let c = r->Ok_0;
                &&& c.wf()
                &&& c.balance_manager.entries@ == snap.balances@
                &&& c.sequencer.order_id == snap.history.end_order_id + 1
                &&& c.sequencer.trade_id == snap.history.end_trade_id + 1
                &&& c.sequencer.operation_log_id == snap.history.end_operation_log_id + 1
                &&& c.op_log@.len() == 0
                &&& c.persistor.messages@.len() == 0
                &&& (forall|k: int|
                    0 <= k < snap.orders@.len() ==> order_in_markets(
                        c.markets@,
                        #[trigger] snap.orders@[k],
                    ))
                &&& total_book_orders(c.markets@) == snap.orders@.len()
            }),
    {
        let mut c = match Controller::new(settings) {
            Ok(c) => c,
            Err(e) => {
                return Err(e);
            },
        };
        if snap.history.end_operation_log_id == u64::MAX || snap.history.end_order_id == u64::MAX
            || snap.history.end_trade_id == u64::MAX {
            return Err(EngineError::InvalidArgument);
        }
        c.sequencer.reset(
            snap.history.end_operation_log_id,
            snap.history.end_order_id,
            snap.history.end_trade_id,
        );
        let balances = copy_entries(&snap.balances);
        match c.balance_manager.restore_entries(balances) {
            Ok(()) => {},
            Err(e) => {
                return Err(e);
            },
        }
        proof {
            lemma_total_book_orders_empty(c.markets@);
        }
        let n = snap.orders.len();
        let mut i: usize = 0;
        while i < n
            invariant
                n == snap.orders@.len(),
                i <= n,
                c.balance_manager.wf(),
                c.balance_manager.entries@ == snap.balances@,
                c.markets@.len() <= u32::MAX,
                c.balance_manager.asset_manager.assets@.len() <= u32::MAX,
                forall|j: int|
                    0 <= j < c.markets@.len() ==> (#[trigger] c.markets@[j]).wf(
                        c.balance_manager.asset_manager,
                    ) && c.markets@[j].idx == j as u32,
                forall|x: int, y: int|
                    0 <= x < y < c.markets@.len() ==> c.markets@[x].name@ !== c.markets@[y].name@,
                forall|j: int|
                    0 <= j < c.markets@.len() ==> ids_below(
                        (#[trigger] c.markets@[j]).asks@,
                        c.sequencer.order_id,
                    ) && ids_below(c.markets@[j].bids@, c.sequencer.order_id),
                c.sequencer.order_id == snap.history.end_order_id + 1,
                c.sequencer.trade_id == snap.history.end_trade_id + 1,
                c.sequencer.operation_log_id == snap.history.end_operation_log_id + 1,
                c.op_log@.len() == 0,
                c.persistor.messages@.len() == 0,
                c.settings == settings,
                update_keys_unique(c.update_controller.entries@),
                forall|k: int|
                    0 <= k < i ==> order_in_markets(c.markets@, #[trigger] snap.orders@[k]),
                total_book_orders(c.markets@) == i,
            decreases n - i,
        {
            let o = snap.orders[i];
            let midx = o.market as usize;
            if midx >= c.markets.len() {
                return Err(EngineError::InvalidArgument);
            }
            if o.id > snap.history.end_order_id {
                return Err(EngineError::InvalidArgument);
            }
            let ghost pre = c.markets@;
            let am = &c.balance_manager.asset_manager;
            let mref = &mut c.markets[midx];
            match mref.restore_order(o, am) {
                Ok(()) => {},
                Err(e) => {
                    return Err(e);
                },
            }
            proof {
                let mi = midx as int;
                let mn = c.markets@[mi];
                assert(c.markets@ == pre.update(mi, mn));
                assert forall|j: int|
                    0 <= j < c.markets@.len() implies (#[trigger] c.markets@[j]).wf(
                    c.balance_manager.asset_manager,
                ) && c.markets@[j].idx == j as u32 by {
                    if j != mi {
                        assert(c.markets@[j] == pre[j]);
                    }
                }
                assert forall|x: int, y: int|
                    0 <= x < y < c.markets@.len() implies c.markets@[x].name@
                    !== c.markets@[y].name@ by {
                    if x != mi {
                        assert(c.markets@[x] == pre[x]);
                    }
                    if y != mi {
                        assert(c.markets@[y] == pre[y]);
                    }
                    assert(mn.name@ == pre[mi].name@);
                }
                assert forall|j: int|
                    0 <= j < c.markets@.len() implies ids_below(
                    (#[trigger] c.markets@[j]).asks@,
                    c.sequencer.order_id,
                ) && ids_below(c.markets@[j].bids@, c.sequencer.order_id) by {
                    if j != mi {
                        assert(c.markets@[j] == pre[j]);
                    } else {
                        if o.side == OrderSide::ASK {
                            let p = choose|p: int|
                                0 <= p <= pre[mi].asks@.len() && mn.asks@ == pre[mi].asks@.insert(
                                    p,
                                    o,
                                );
                            assert forall|q: int|
                                0 <= q < mn.asks@.len() implies (#[trigger] mn.asks@[q].id)
                                < c.sequencer.order_id by {
                                if q != p {
                                    let q2: int = if q < p {
                                        q
                                    } else {
                                        q - 1
                                    };
                                    assert(mn.asks@[q] == pre[mi].asks@[q2]);
                                }
                            }
                            assert(mn.bids@ == pre[mi].bids@);
                        } else {
                            let p = choose|p: int|
                                0 <= p <= pre[mi].bids@.len() && mn.bids@ == pre[mi].bids@.insert(
                                    p,
                                    o,
                                );
                            assert forall|q: int|
                                0 <= q < mn.bids@.len() implies (#[trigger] mn.bids@[q].id)
                                < c.sequencer.order_id by {
                                if q != p {
                                    let q2: int = if q < p {
                                        q
                                    } else {
                                        q - 1
                                    };
                                    assert(mn.bids@[q] == pre[mi].bids@[q2]);
                                }
                            }
                            assert(mn.asks@ == pre[mi].asks@);
                        }
                    }
                }
                lemma_total_book_orders_update(pre, mi, mn);
                assert forall|k: int|
                    0 <= k < i + 1 implies order_in_markets(
                    c.markets@,
                    #[trigger] snap.orders@[k],
                ) by {
                    if k == i {
                        if o.side == OrderSide::ASK {
                            let p = choose|p: int|
                                0 <= p <= pre[mi].asks@.len() && mn.asks@ == pre[mi].asks@.insert(
                                    p,
                                    o,
                                );
                            assert(c.markets@[mi].asks@[p] == o);
                        } else {
                            let p = choose|p: int|
                                0 <= p <= pre[mi].bids@.len() && mn.bids@ == pre[mi].bids@.insert(
                                    p,
                                    o,
                                );
                            assert(c.markets@[mi].bids@[p] == o);
                        }
                    } else {
                        let ok = snap.orders@[k];
                        let (omi, oj) = choose|omi: int, oj: int|
                            0 <= omi < pre.len() && ((0 <= oj < pre[omi].asks@.len()
                                && pre[omi].asks@[oj] == ok) || (0 <= oj < pre[omi].bids@.len()
                                && pre[omi].bids@[oj] == ok));
                        if omi != mi {
                            assert(c.markets@[omi] == pre[omi]);
                        } else {
                            if o.side == OrderSide::ASK {
                                let p = choose|p: int|
                                    0 <= p <= pre[mi].asks@.len() && mn.asks@
                                        == pre[mi].asks@.insert(p, o);
                                if 0 <= oj < pre[mi].asks@.len() && pre[mi].asks@[oj] == ok {
                                    let oj2: int = if oj < p {
                                        oj
                                    } else {
                                        oj + 1
                                    };
                                    assert(mn.asks@[oj2] == pre[mi].asks@[oj]);
                                } else {
                                    assert(mn.bids@ == pre[mi].bids@);
                                }
                            } else {
                                let p = choose|p: int|
                                    0 <= p <= pre[mi].bids@.len() && mn.bids@
                                        == pre[mi].bids@.insert(p, o);
                                if 0 <= oj < pre[mi].bids@.len() && pre[mi].bids@[oj] == ok {
                                    let oj2: int = if oj < p {
                                        oj
                                    } else {
                                        oj + 1
                                    };
                                    assert(mn.bids@[oj2] == pre[mi].bids@[oj]);
                                } else {
                                    assert(mn.asks@ == pre[mi].asks@);
                                }
                            }
                        }
                    }
                }
            }
            i = i + 1;
        }
        match c.audit_frozen_coupling() {
            Ok(()) => {},
            Err(e) => {
                return Err(e);
            },
        }
        Ok(c)
    }

    /// Verifies, cell by cell, that every frozen balance equals what
    /// the books keep frozen for that user and asset, and that every
    /// resting order's owner has a ledger cell for its frozen asset;
    /// only then is the frozen-balance coupling — and with it full
    /// well-formedness — established.
    #[verifier::rlimit(100)]
    #[verifier::spinoff_prover]
    fn audit_frozen_coupling(&self) -> (r: Result<(), EngineError>)
        requires
            self.balance_manager.wf(),
            self.balance_manager.asset_manager.assets@.len() <= u32::MAX,
            self.markets@.len() <= u32::MAX,
            forall|j: int|
                0 <= j < self.markets@.len() ==> (#[trigger] self.markets@[j]).wf(
                    self.balance_manager.asset_manager,
                ) && self.markets@[j].idx == j as u32,
            forall|x: int, y: int|
                0 <= x < y < self.markets@.len() ==> self.markets@[x].name@
                    !== self.markets@[y].name@,
            forall|j: int|
                0 <= j < self.markets@.len() ==> ids_below(
                    (#[trigger] self.markets@[j]).asks@,
                    self.sequencer.order_id,
                ) && ids_below(self.markets@[j].bids@, self.sequencer.order_id),
            update_keys_unique(self.update_controller.entries@),
        ensures
            r is Ok ==> self.wf(),
            r is Err ==> r == Err::<(), EngineError>(EngineError::InvalidArgument),
    {
        // Every order's owner must hold a cell for the order's frozen
        // asset; a user and asset without a cell then freeze nothing.
        let nm = self.markets.len();
        let mut mi: usize = 0;
        while mi < nm
            invariant
                nm == self.markets@.len(),
                mi <= nm,
                self.balance_manager.wf(),
                forall|j: int, q: int|
                    0 <= j < mi && 0 <= q < self.markets@[j].asks@.len() ==> has_entry(
                        self.balance_manager.entries@,
                        (#[trigger] self.markets@[j].asks@[q]).user,
                        self.markets@[j].base,
                    ),
                forall|j: int, q: int|
                    0 <= j < mi && 0 <= q < self.markets@[j].bids@.len() ==> has_entry(
                        self.balance_manager.entries@,
                        (#[trigger] self.markets@[j].bids@[q]).user,
                        self.markets@[j].quote,
                    ),
            decreases nm - mi,
        {
            let m = &self.markets[mi];
            let na = m.asks.len();
            let mut q: usize = 0;
            while q < na
                invariant
                    na == m.asks@.len(),
                    q <= na,
                    forall|t: int|
                        0 <= t < q ==> has_entry(
                            self.balance_manager.entries@,
                            (#[trigger] m.asks@[t]).user,
                            m.base,
                        ),
                decreases na - q,
            {
                if self.balance_manager.find_entry(m.asks[q].user, m.base).is_none() {
                    return Err(EngineError::InvalidArgument);
                }
                q = q + 1;
            }
            let nb = m.bids.len();
            let mut q: usize = 0;
            while q < nb
                invariant
                    nb == m.bids@.len(),
                    q <= nb,
                    forall|t: int|
                        0 <= t < na ==> has_entry(
                            self.balance_manager.entries@,
                            (#[trigger] m.asks@[t]).user,
                            m.base,
                        ),
                    na == m.asks@.len(),
                    forall|t: int|
                        0 <= t < q ==> has_entry(
                            self.balance_manager.entries@,
                            (#[trigger] m.bids@[t]).user,
                            m.quote,
                        ),
                decreases nb - q,
            {
                if self.balance_manager.find_entry(m.bids[q].user, m.quote).is_none() {
                    return Err(EngineError::InvalidArgument);
                }
                q = q + 1;
            }
            mi = mi + 1;
        }
        // Every cell's frozen amount must equal the books' frozen sum.
        proof {
            assert forall|j: int, q: int|
                0 <= j < self.markets@.len() && 0 <= q < self.markets@[j].asks@.len() implies 0
                <= (#[trigger] self.markets@[j].asks@[q]).frozen.mantissa <= MAX_MANTISSA by {
                assert(self.markets@[j].wf(self.balance_manager.asset_manager));
                assert(crate::order::resting_wf(
                    self.markets@[j].asks@[q],
                    self.markets@[j].idx,
                ));
            }
            assert forall|j: int, q: int|
                0 <= j < self.markets@.len() && 0 <= q < self.markets@[j].bids@.len() implies 0
                <= (#[trigger] self.markets@[j].bids@[q]).frozen.mantissa <= MAX_MANTISSA by {
                assert(self.markets@[j].wf(self.balance_manager.asset_manager));
                assert(crate::order::resting_wf(
                    self.markets@[j].bids@[q],
                    self.markets@[j].idx,
                ));
            }
        }
        let ne = self.balance_manager.entries.len();
        let mut ei: usize = 0;
        while ei < ne
            invariant
                ne == self.balance_manager.entries@.len(),
                ei <= ne,
                self.balance_manager.wf(),
                nm == self.markets@.len(),
                forall|j: int|
                    0 <= j < self.markets@.len() ==> (#[trigger] self.markets@[j]).wf(
                        self.balance_manager.asset_manager,
                    ),
                forall|j: int, q: int|
                    0 <= j < self.markets@.len() && 0 <= q < self.markets@[j].asks@.len() ==> 0
                        <= (#[trigger] self.markets@[j].asks@[q]).frozen.mantissa <= MAX_MANTISSA,
                forall|j: int, q: int|
                    0 <= j < self.markets@.len() && 0 <= q < self.markets@[j].bids@.len() ==> 0
                        <= (#[trigger] self.markets@[j].bids@[q]).frozen.mantissa <= MAX_MANTISSA,
                forall|j: int, q: int|
                    0 <= j < nm && 0 <= q < self.markets@[j].asks@.len() ==> has_entry(
                        self.balance_manager.entries@,
                        (#[trigger] self.markets@[j].asks@[q]).user,
                        self.markets@[j].base,
                    ),
                forall|j: int, q: int|
                    0 <= j < nm && 0 <= q < self.markets@[j].bids@.len() ==> has_entry(
                        self.balance_manager.entries@,
                        (#[trigger] self.markets@[j].bids@[q]).user,
                        self.markets@[j].quote,
                    ),
                forall|k: int|
                    0 <= k < ei ==> (#[trigger] self.balance_manager.entries@[k]).frozen.mantissa
                        == total_frozen(
                        self.markets@,
                        self.balance_manager.entries@[k].user,
                        self.balance_manager.entries@[k].asset,
                    ),
                self.balance_manager.asset_manager.assets@.len() <= u32::MAX,
                self.markets@.len() <= u32::MAX,
                forall|j: int|
                    0 <= j < self.markets@.len() ==> (#[trigger] self.markets@[j]).idx == j as u32,
                forall|x: int, y: int|
                    0 <= x < y < self.markets@.len() ==> self.markets@[x].name@
                        !== self.markets@[y].name@,
                forall|j: int|
                    0 <= j < self.markets@.len() ==> ids_below(
                        (#[trigger] self.markets@[j]).asks@,
                        self.sequencer.order_id,
                    ) && ids_below(self.markets@[j].bids@, self.sequencer.order_id),
                update_keys_unique(self.update_controller.entries@),
            decreases ne - ei,
        {
            let e = self.balance_manager.entries[ei];
            proof {
                assert(0 <= self.balance_manager.entries@[ei as int].available.mantissa
                    && self.balance_manager.entries@[ei as int].available.mantissa
                    + self.balance_manager.entries@[ei as int].frozen.mantissa <= MAX_MANTISSA);
            }
            let t = compute_total_frozen(&self.markets, e.user, e.asset);
            if t != e.frozen.mantissa {
                return Err(EngineError::InvalidArgument);
            }
            ei = ei + 1;
        }
        proof {
            assert forall|u: u32, a: u32|
                #[trigger] frozen_of(self.balance_manager.entries@, u, a) == total_frozen(
                    self.markets@,
                    u,
                    a,
                ) by {
                let s = self.balance_manager.entries@;
                if has_entry(s, u, a) {
                    let k = crate::balance::entry_index(s, u, a);
                    assert(0 <= k < s.len() && s[k].user == u && s[k].asset == a);
                    assert(s[k].frozen.mantissa == total_frozen(self.markets@, u, a));
                } else {
                    lemma_total_frozen_zero_uncovered(
                        self.markets@,
                        self.balance_manager.entries@,
                        u,
                        a,
                    );
                }
            }
        }
        Ok(())
    }
}

/// With every order's owner covered by a ledger cell, a user and asset
/// without a cell freeze nothing anywhere.
proof fn lemma_total_frozen_zero_uncovered(
    ms: Seq<Market>,
    entries: Seq<crate::balance::BalanceEntry>,
    u: u32,
    a: u32,
)
    requires
        forall|j: int, q: int|
            0 <= j < ms.len() && 0 <= q < ms[j].asks@.len() ==> has_entry(
                entries,
                (#[trigger] ms[j].asks@[q]).user,
                ms[j].base,
            ),
        forall|j: int, q: int|
            0 <= j < ms.len() && 0 <= q < ms[j].bids@.len() ==> has_entry(
                entries,
                (#[trigger] ms[j].bids@[q]).user,
                ms[j].quote,
            ),
        !has_entry(entries, u, a),
    ensures
        total_frozen(ms, u, a) == 0,
    decreases ms.len(),
{
    if ms.len() > 0 {
        let m = ms.last();
        let l = ms.len() - 1;
        assert forall|j: int, q: int|
            0 <= j < ms.drop_last().len() && 0 <= q < ms.drop_last()[j].asks@.len()
            implies has_entry(
            entries,
            (#[trigger] ms.drop_last()[j].asks@[q]).user,
            ms.drop_last()[j].base,
        ) by {
            assert(ms.drop_last()[j] == ms[j]);
        }
        assert forall|j: int, q: int|
            0 <= j < ms.drop_last().len() && 0 <= q < ms.drop_last()[j].bids@.len()
            implies has_entry(
            entries,
            (#[trigger] ms.drop_last()[j].bids@[q]).user,
            ms.drop_last()[j].quote,
        ) by {
            assert(ms.drop_last()[j] == ms[j]);
        }
        lemma_total_frozen_zero_uncovered(ms.drop_last(), entries, u, a);
        if m.base == a {
            assert forall|q: int| 0 <= q < m.asks@.len() implies (#[trigger] m.asks@[q]).user
                != u by {
                assert(ms[l as int] == m);
                if m.asks@[q].user == u {
                    assert(has_entry(entries, u, a));
                }
            }
            crate::market::lemma_user_count_zero(m.asks@, u);
        }
        if m.quote == a {
            assert forall|q: int| 0 <= q < m.bids@.len() implies (#[trigger] m.bids@[q]).user
                != u by {
                assert(ms[l as int] == m);
                if m.bids@[q].user == u {
                    assert(has_entry(entries, u, a));
                }
            }
            crate::market::lemma_user_count_zero(m.bids@, u);
        }
    }
}

/// The books' frozen total for `(u, a)`, saturated one past the bound
/// (a saturated result can equal no valid ledger cell).
fn compute_total_frozen(markets: &Vec<Market>, u: u32, a: u32) -> (r: i128)
    requires
        forall|j: int, q: int|
            0 <= j < markets@.len() && 0 <= q < markets@[j].asks@.len() ==> 0 <= (
            #[trigger] markets@[j].asks@[q]).frozen.mantissa <= MAX_MANTISSA,
        forall|j: int, q: int|
            0 <= j < markets@.len() && 0 <= q < markets@[j].bids@.len() ==> 0 <= (
            #[trigger] markets@[j].bids@[q]).frozen.mantissa <= MAX_MANTISSA,
    ensures
        0 <= r <= MAX_MANTISSA + 1,
        r <= MAX_MANTISSA ==> r == total_frozen(markets@, u, a),
        r == MAX_MANTISSA + 1 ==> total_frozen(markets@, u, a) > MAX_MANTISSA,
    {
        let n = markets.len();
        let mut acc: i128 = 0;
        let mut i: usize = 0;
        while i < n
            invariant
                n == markets@.len(),
                i <= n,
                0 <= acc <= MAX_MANTISSA + 1,
                acc == (if total_frozen(markets@.take(i as int), u, a) <= MAX_MANTISSA {
                    total_frozen(markets@.take(i as int), u, a)
                } else {
                    (MAX_MANTISSA + 1) as int
                }),
                forall|j: int, q: int|
                    0 <= j < markets@.len() && 0 <= q < (#[trigger] markets@[j]).asks@.len() ==> 0
                        <= (#[trigger] markets@[j].asks@[q]).frozen.mantissa <= MAX_MANTISSA,
                forall|j: int, q: int|
                    0 <= j < markets@.len() && 0 <= q < (#[trigger] markets@[j]).bids@.len() ==> 0
                        <= (#[trigger] markets@[j].bids@[q]).frozen.mantissa <= MAX_MANTISSA,
            decreases n - i,
        {
            proof {
                assert(markets@.take(i + 1).drop_last() =~= markets@.take(i as int));
                assert(markets@.take(i + 1).last() == markets@[i as int]);
                lemma_total_frozen_nonneg_clamped(markets@.take(i as int), u, a);
            }
            let m = &markets[i];
            let mut market_part: i128 = 0;
            if m.base == a {
                market_part = user_frozen_clamped(&m.asks, u);
            }
            if m.quote == a {
                let part = user_frozen_clamped(&m.bids, u);
                market_part = if market_part > MAX_MANTISSA + 1 - part {
                    MAX_MANTISSA + 1
                } else {
                    market_part + part
                };
            }
            proof {
                assert(forall|q: int|
                    0 <= q < m.asks@.len() ==> 0 <= (#[trigger] m.asks@[q]).frozen.mantissa);
                assert(forall|q: int|
                    0 <= q < m.bids@.len() ==> 0 <= (#[trigger] m.bids@[q]).frozen.mantissa);
                crate::market::lemma_user_frozen_nonneg(m.asks@, u);
                crate::market::lemma_user_frozen_nonneg(m.bids@, u);
            }
            acc = if acc > MAX_MANTISSA + 1 - market_part {
                MAX_MANTISSA + 1
            } else {
                if acc + market_part > MAX_MANTISSA + 1 {
                    MAX_MANTISSA + 1
                } else {
                    acc + market_part
                }
            };
            i = i + 1;
        }
        proof {
            assert(markets@.take(n as int) =~= markets@);
        }
        acc
    }

/// A clamped nonnegative total never misrepresents the bound.
proof fn lemma_total_frozen_nonneg_clamped(ms: Seq<Market>, u: u32, a: u32)
    requires
        forall|j: int, q: int|
            0 <= j < ms.len() && 0 <= q < ms[j].asks@.len() ==> 0 <= (
            #[trigger] ms[j].asks@[q]).frozen.mantissa,
        forall|j: int, q: int|
            0 <= j < ms.len() && 0 <= q < ms[j].bids@.len() ==> 0 <= (
            #[trigger] ms[j].bids@[q]).frozen.mantissa,
    ensures
        total_frozen(ms, u, a) >= 0,
    decreases ms.len(),
{
    if ms.len() > 0 {
        assert forall|j: int, q: int|
            0 <= j < ms.drop_last().len() && 0 <= q < ms.drop_last()[j].asks@.len()
            implies 0 <= (#[trigger] ms.drop_last()[j].asks@[q]).frozen.mantissa by {
            assert(ms.drop_last()[j] == ms[j]);
        }
        assert forall|j: int, q: int|
            0 <= j < ms.drop_last().len() && 0 <= q < ms.drop_last()[j].bids@.len()
            implies 0 <= (#[trigger] ms.drop_last()[j].bids@[q]).frozen.mantissa by {
            assert(ms.drop_last()[j] == ms[j]);
        }
        lemma_total_frozen_nonneg_clamped(ms.drop_last(), u, a);
        let m = ms.last();
        assert(forall|q: int|
            0 <= q < m.asks@.len() ==> 0 <= (#[trigger] m.asks@[q]).frozen.mantissa);
        assert(forall|q: int|
            0 <= q < m.bids@.len() ==> 0 <= (#[trigger] m.bids@[q]).frozen.mantissa);
        crate::market::lemma_user_frozen_nonneg(m.asks@, u);
        crate::market::lemma_user_frozen_nonneg(m.bids@, u);
    }
}

/// One user's frozen sum in one book, saturated one past the bound.
fn user_frozen_clamped(book: &Vec<Order>, u: u32) -> (r: i128)
    requires
        forall|q: int|
            0 <= q < book@.len() ==> 0 <= (#[trigger] book@[q]).frozen.mantissa <= MAX_MANTISSA,
    ensures
        0 <= r <= MAX_MANTISSA + 1,
        r == (if user_frozen(book@, u) <= MAX_MANTISSA {
            user_frozen(book@, u)
        } else {
            (MAX_MANTISSA + 1) as int
        }),
{
    let n = book.len();
    let mut acc: i128 = 0;
    let mut i: usize = 0;
    while i < n
        invariant
            n == book@.len(),
            i <= n,
            0 <= acc <= MAX_MANTISSA + 1,
            acc == (if user_frozen(book@.take(i as int), u) <= MAX_MANTISSA {
                user_frozen(book@.take(i as int), u)
            } else {
                (MAX_MANTISSA + 1) as int
            }),
            forall|q: int|
                0 <= q < book@.len() ==> 0 <= (#[trigger] book@[q]).frozen.mantissa
                    <= MAX_MANTISSA,
        decreases n - i,
    {
        proof {
            assert(book@.take(i + 1).drop_last() =~= book@.take(i as int));
            assert(book@.take(i + 1).last() == book@[i as int]);
            assert(forall|q: int|
                0 <= q < book@.take(i as int).len() ==> 0 <= (#[trigger] book@.take(
                    i as int,
                )[q]).frozen.mantissa);
            crate::market::lemma_user_frozen_nonneg(book@.take(i as int), u);
        }
        if book[i].user == u {
            let f = book[i].frozen.mantissa;
            acc = if acc > MAX_MANTISSA + 1 - f {
                MAX_MANTISSA + 1
            } else {
                if acc + f > MAX_MANTISSA + 1 {
                    MAX_MANTISSA + 1
                } else {
                    acc + f
                }
            };
        }
        i = i + 1;
    }
    proof {
        assert(book@.take(n as int) =~= book@);
    }
    acc
}

/// Appends a whole book to the dump./// Appends a whole book to the dump.
fn append_orders(out: &mut Vec<Order>, book: &Vec<Order>)
    ensures
        final(out)@ == old(out)@ + book@,
{
    let n = book.len();
    let mut i: usize = 0;
    while i < n
        invariant
            n == book@.len(),
            i <= n,
            out@ == old(out)@ + book@.take(i as int),
        decreases n - i,
    {
        proof {
            assert(book@.take(i + 1) =~= book@.take(i as int).push(book@[i as int]));
            assert(old(out)@ + book@.take(i + 1) =~= (old(out)@ + book@.take(i as int)).push(
                book@[i as int],
            ));
        }
        out.push(book[i]);
        i = i + 1;
    }
    proof {
        assert(book@.take(n as int) =~= book@);
    }
}

/// Fresh copies of ledger rows.
fn copy_entries(v: &Vec<BalanceEntry>) -> (r: Vec<BalanceEntry>)
    ensures
        r@ == v@,
{
    let n = v.len();
    let mut out: Vec<BalanceEntry> = Vec::new();
    let mut i: usize = 0;
    while i < n
        invariant
            n == v@.len(),
            i <= n,
            out@ == v@.take(i as int),
        decreases n - i,
    {
        proof {
            assert(v@.take(i + 1) =~= v@.take(i as int).push(v@[i as int]));
        }
        out.push(v[i]);
        i = i + 1;
    }
    proof {
        assert(v@.take(n as int) =~= v@);
    }
    out
}

} // verus!
