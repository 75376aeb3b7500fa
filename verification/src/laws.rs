//! The engine's standing guarantees, stated as theorems over the
//! well-formedness that every operation preserves.

use vstd::prelude::*;
use crate::balance::{avail_of, entries_wf, frozen_of, BalanceManager};
use crate::controller::{total_frozen, Controller};
use crate::decimal::DECIMAL_UNIT;
use crate::market::{side_before, Market};
use crate::order::{order_wf, resting_wf, user_frozen, Order, OrderSide};
use crate::sequencer::Sequencer;

verus! {

/// No balance is ever negative: every partition of every ledger cell of
/// a well-formed controller holds a nonnegative amount.
pub proof fn law_balances_nonnegative(c: Controller, u: u32, a: u32)
    requires
        c.wf(),
    ensures
        avail_of(c.balance_manager.entries@, u, a) >= 0,
        frozen_of(c.balance_manager.entries@, u, a) >= 0,
{
    let s = c.balance_manager.entries@;
    if crate::balance::has_entry(s, u, a) {
        let i = crate::balance::entry_index(s, u, a);
        assert(0 <= i < s.len() && s[i].user == u && s[i].asset == a);
        assert(0 <= s[i].available.mantissa && 0 <= s[i].frozen.mantissa);
    }
}

/// What the ledger holds frozen for a user and asset is exactly the sum
/// of the frozen amounts of that user's open orders whose frozen asset
/// it is, across every market.
pub proof fn law_frozen_equals_open_orders(c: Controller, u: u32, a: u32)
    requires
        c.wf(),
    ensures
        frozen_of(c.balance_manager.entries@, u, a) == total_frozen(c.markets@, u, a),
{
}

/// Order conservation: for every order the engine handles, what is
/// finished plus what remains is what was asked for.
pub proof fn law_order_conservation(o: Order)
    requires
        order_wf(o),
    ensures
        o.finished_base.mantissa + o.remain.mantissa == o.amount.mantissa,
{
}

/// Every resting order of a well-formed controller obeys conservation.
pub proof fn law_resting_order_conservation(c: Controller, k: int, i: int, is_ask: bool)
    requires
        c.wf(),
        0 <= k < c.markets@.len(),
        is_ask ==> 0 <= i < c.markets@[k].asks@.len(),
        !is_ask ==> 0 <= i < c.markets@[k].bids@.len(),
    ensures
        is_ask ==> ({
            let o = c.markets@[k].asks@[i];
            o.finished_base.mantissa + o.remain.mantissa == o.amount.mantissa
        }),
        !is_ask ==> ({
            let o = c.markets@[k].bids@[i];
            o.finished_base.mantissa + o.remain.mantissa == o.amount.mantissa
        }),
{
    if is_ask {
        assert(resting_wf(c.markets@[k].asks@[i], c.markets@[k].idx));
    } else {
        assert(resting_wf(c.markets@[k].bids@[i], c.markets@[k].idx));
    }
}

/// Monotonic ids: of two orders issued one after the other by the same
/// sequencer, the earlier one carries the smaller id.  The same holds
/// for trade and operation-log ids, which the sequencer issues the same
/// way.
pub proof fn law_monotonic_order_ids(
    s0: Sequencer,
    s1: Sequencer,
    s2: Sequencer,
    id1: u64,
    id2: u64,
)
    requires
        id1 == s0.order_id,
        s1.order_id == s0.order_id + 1,
        id2 == s1.order_id,
        s2.order_id == s1.order_id + 1,
    ensures
        id1 < id2,
{
}

/// Price-time priority of the books: in a well-formed controller every
/// book lists its orders strictly best-first — by price, then by the
/// order id that arrival order fixed.  The matching engine always takes
/// the head of the opposite book, so no better-priced resting order is
/// ever skipped.
pub proof fn law_book_priority(c: Controller, k: int, i: int, j: int, is_ask: bool)
    requires
        c.wf(),
        0 <= k < c.markets@.len(),
        is_ask ==> 0 <= i < j < c.markets@[k].asks@.len(),
        !is_ask ==> 0 <= i < j < c.markets@[k].bids@.len(),
    ensures
        is_ask ==> side_before(
            OrderSide::ASK,
            c.markets@[k].asks@[i],
            c.markets@[k].asks@[j],
        ),
        !is_ask ==> side_before(
            OrderSide::BID,
            c.markets@[k].bids@[i],
            c.markets@[k].bids@[j],
        ),
{
}

/// Value conservation per trade: what a resting bid has spent in quote
/// never exceeds its filled base valued at its limit price, and what it
/// still holds frozen plus what it spent is exactly its initial freeze.
pub proof fn law_bid_value_conservation(c: Controller, k: int, i: int)
    requires
        c.wf(),
        0 <= k < c.markets@.len(),
        0 <= i < c.markets@[k].bids@.len(),
    ensures
        ({
            let o = c.markets@[k].bids@[i];
            (o.frozen.mantissa + o.finished_quote.mantissa) * DECIMAL_UNIT == o.amount.mantissa
                * o.price.mantissa
        }),
        ({
            let o = c.markets@[k].bids@[i];
            o.finished_quote.mantissa * DECIMAL_UNIT <= o.finished_base.mantissa
                * o.price.mantissa
        }),
{
    assert(resting_wf(c.markets@[k].bids@[i], c.markets@[k].idx));
}

} // verus!
