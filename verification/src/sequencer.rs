//! Monotonic id generation for orders, trades and operation-log entries.
//!
//! Each counter holds the id that will be handed out next; `next_*`
//! returns it and steps the counter, so no id is ever issued twice.

use vstd::prelude::*;

verus! {

pub struct Sequencer {
    pub order_id: u64,
    pub trade_id: u64,
    pub operation_log_id: u64,
}

impl Sequencer {
    /// All three streams start at id 1.
    pub open spec fn spec_fresh() -> Sequencer {
        Sequencer { order_id: 1, trade_id: 1, operation_log_id: 1 }
    }

    pub fn next_order_id(&mut self) -> (r: u64)
        requires
            old(self).order_id < u64::MAX,
        ensures
            r == old(self).order_id,
            final(self).order_id == old(self).order_id + 1,
            final(self).trade_id == old(self).trade_id,
            final(self).operation_log_id == old(self).operation_log_id,
    {
        let r = self.order_id;
        self.order_id = self.order_id + 1;
        r
    }

    pub fn next_trade_id(&mut self) -> (r: u64)
        requires
            old(self).trade_id < u64::MAX,
        ensures
            r == old(self).trade_id,
            final(self).trade_id == old(self).trade_id + 1,
            final(self).order_id == old(self).order_id,
            final(self).operation_log_id == old(self).operation_log_id,
    {
        let r = self.trade_id;
        self.trade_id = self.trade_id + 1;
        r
    }

    pub fn next_operation_log_id(&mut self) -> (r: u64)
        requires
            old(self).operation_log_id < u64::MAX,
        ensures
            r == old(self).operation_log_id,
            final(self).operation_log_id == old(self).operation_log_id + 1,
            final(self).order_id == old(self).order_id,
            final(self).trade_id == old(self).trade_id,
    {
        let r = self.operation_log_id;
        self.operation_log_id = self.operation_log_id + 1;
        r
    }

    /// Whether every stream can still issue an id.
    pub fn can_issue(&self) -> (r: bool)
        ensures
            r == (self.order_id < u64::MAX && self.trade_id < u64::MAX && self.operation_log_id
                < u64::MAX),
    {
        self.order_id < u64::MAX && self.trade_id < u64::MAX && self.operation_log_id < u64::MAX
    }

    /// Restarts every stream right after the persisted watermarks, so
    /// ids never regress across a reload.
    pub fn reset(&mut self, end_operation_log_id: u64, end_order_id: u64, end_trade_id: u64)
        requires
            end_operation_log_id < u64::MAX,
            end_order_id < u64::MAX,
            end_trade_id < u64::MAX,
        ensures
            final(self).operation_log_id == end_operation_log_id + 1,
            final(self).order_id == end_order_id + 1,
            final(self).trade_id == end_trade_id + 1,
    {
        self.operation_log_id = end_operation_log_id + 1;
        self.order_id = end_order_id + 1;
        self.trade_id = end_trade_id + 1;
    }
}

impl Default for Sequencer {
    /// A fresh sequencer: every stream begins at id 1.
    fn default() -> (s: Sequencer)
        ensures
            s == Sequencer::spec_fresh(),
    {
        Sequencer { order_id: 1, trade_id: 1, operation_log_id: 1 }
    }
}

} // verus!
