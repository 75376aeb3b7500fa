//! Domain events and the in-process event sinks.
//!
//! Every state change the engine applies in real mode produces messages
//! here, in operation order; outer layers drain them to durable sinks.

use vstd::prelude::*;
use crate::decimal::Decimal;
use crate::market::Trade;
use crate::order::{Order, OrderEventType};

verus! {

/// One row of balance history: a change applied to one partition of a
/// user's holding, with the balances that resulted.
pub struct BalanceHistory {
    pub time: u64,
    pub user_id: u32,
    pub business_id: u64,
    pub asset: u32,
    pub business: String,
    pub market_price: Decimal,
    pub change: Decimal,
    pub balance: Decimal,
    pub balance_available: Decimal,
    pub balance_frozen: Decimal,
    pub detail: String,
}

/// A transfer between two users, emitted by the transfer operation.
pub struct InternalTx {
    pub time: u64,
    pub user_from: u32,
    pub user_to: u32,
    pub asset: u32,
    pub amount: Decimal,
}

/// Everything a sink can be handed, in the order it happened.
pub enum Message {
    OrderMessage(Order, OrderEventType),
    TradeMessage(Trade),
    BalanceMessage(BalanceHistory),
    DepositMessage(BalanceHistory),
    WithdrawMessage(BalanceHistory),
    TransferMessage(InternalTx),
}

/// A sink that drops everything; stands in when events must not be
/// recorded, as during replay.
pub struct DummyPersistor {}

impl DummyPersistor {
    pub fn new() -> (r: DummyPersistor) {
        DummyPersistor {  }
    }

    pub fn new_box() -> (r: Box<DummyPersistor>) {
        Box::new(DummyPersistor {  })
    }

    pub fn real_persist(&self) -> (r: bool)
        ensures
            r == false,
    {
        false
    }

    pub fn put_order(&mut self, _order: &Order, _at_step: OrderEventType) {
    }

    pub fn put_trade(&mut self, _trade: &Trade) {
    }

    pub fn put_balance(&mut self, _balance: BalanceHistory) {
    }

    pub fn put_deposit(&mut self, _balance: BalanceHistory) {
    }

    pub fn put_withdraw(&mut self, _balance: BalanceHistory) {
    }

    pub fn put_transfer(&mut self, _tx: InternalTx) {
    }
}

/// A sink that appends every message to an in-process vector.
pub struct MemBasedPersistor {
    pub messages: Vec<Message>,
}

impl MemBasedPersistor {
    pub fn new() -> (r: MemBasedPersistor)
        ensures
            r.messages@.len() == 0,
    {
        MemBasedPersistor { messages: Vec::new() }
    }

    pub fn real_persist(&self) -> (r: bool)
        ensures
            r == true,
    {
        true
    }

    pub fn put_order(&mut self, order: &Order, at_step: OrderEventType)
        ensures
            final(self).messages@ == old(self).messages@.push(
                Message::OrderMessage(*order, at_step),
            ),
    {
        self.messages.push(Message::OrderMessage(*order, at_step));
    }

    pub fn put_trade(&mut self, trade: &Trade)
        ensures
            final(self).messages@ == old(self).messages@.push(Message::TradeMessage(*trade)),
    {
        self.messages.push(Message::TradeMessage(*trade));
    }

    pub fn put_balance(&mut self, balance: BalanceHistory)
        ensures
            final(self).messages@ == old(self).messages@.push(Message::BalanceMessage(balance)),
    {
        self.messages.push(Message::BalanceMessage(balance));
    }

    pub fn put_deposit(&mut self, balance: BalanceHistory)
        ensures
            final(self).messages@ == old(self).messages@.push(Message::DepositMessage(balance)),
    {
        self.messages.push(Message::DepositMessage(balance));
    }

    pub fn put_withdraw(&mut self, balance: BalanceHistory)
        ensures
            final(self).messages@ == old(self).messages@.push(Message::WithdrawMessage(balance)),
    {
        self.messages.push(Message::WithdrawMessage(balance));
    }

    pub fn put_transfer(&mut self, tx: InternalTx)
        ensures
            final(self).messages@ == old(self).messages@.push(Message::TransferMessage(tx)),
    {
        self.messages.push(Message::TransferMessage(tx));
    }
}

} // verus!
