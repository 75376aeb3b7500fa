//! Configuration data: assets, markets, and engine-wide settings.

use vstd::prelude::*;
use crate::decimal::Decimal;

verus! {

/// A registered asset.  `prec_save` is the scale the ledger keeps;
/// `prec_show` the scale used at the boundaries.
#[derive(Clone, Debug)]
pub struct Asset {
    pub id: String,
    pub symbol: String,
    pub name: String,
    pub prec_save: u32,
    pub prec_show: u32,
}

/// One side of a market: an asset and the precision quoted in it.
#[derive(Clone, Debug)]
pub struct MarketUnit {
    pub asset_id: String,
    pub prec: u32,
}

/// Static description of one market.
#[derive(Clone, Debug)]
pub struct Market {
    pub name: String,
    pub base: String,
    pub quote: String,
    pub amount_prec: u32,
    pub price_prec: u32,
    pub fee_prec: u32,
    pub min_amount: Decimal,
}

/// Where history events are persisted.
#[derive(Clone, Copy, Debug, PartialEq, Eq, Structural)]
pub enum PersistPolicy {
    Dummy,
    Both,
    ToDB,
    ToMessage,
}

/// Engine-wide settings.
#[derive(Clone, Debug)]
pub struct Settings {
    pub debug: bool,
    pub db_log: String,
    pub db_history: String,
    pub keycloak_pubkey: String,
    pub keycloak_admin_role: String,
    pub keycloak_deposit_admin_role: String,
    pub keycloak_withdrawal_admin_role: String,
    pub history_persist_policy: PersistPolicy,
    pub market_from_db: bool,
    pub assets: Vec<Asset>,
    pub markets: Vec<Market>,
    pub brokers: String,
    pub consumer_group: String,
    pub persist_interval: i32,
    pub slice_interval: i32,
    pub slice_keeptime: i32,
    pub history_thread: i32,
    pub disable_self_trade: bool,
    pub disable_market_order: bool,
    pub user_order_num_limit: usize,
}

impl Default for MarketUnit {
    fn default() -> (r: MarketUnit)
        ensures
            r.asset_id@ == Seq::<char>::empty(),
            r.prec == 0,
    {
        MarketUnit { asset_id: String::new(), prec: 0 }
    }
}

impl Default for Market {
    /// An unnamed market with fee precision 4 and minimum amount 0.01.
    fn default() -> (r: Market)
        ensures
            r.name@ == Seq::<char>::empty(),
            r.base@ == Seq::<char>::empty(),
            r.quote@ == Seq::<char>::empty(),
            r.amount_prec == 0,
            r.price_prec == 0,
            r.fee_prec == 4,
            r.min_amount.mantissa == 10_000_000,
    {
        Market {
            name: String::new(),
            base: String::new(),
            quote: String::new(),
            amount_prec: 0,
            price_prec: 0,
            fee_prec: 4,
            min_amount: Decimal { mantissa: 10_000_000 },
        }
    }
}

impl Default for Settings {
    fn default() -> (r: Settings)
        ensures
            r.debug == false,
            r.history_persist_policy == PersistPolicy::ToMessage,
            r.market_from_db == true,
            r.assets@.len() == 0,
            r.markets@.len() == 0,
            r.persist_interval == 3600,
            r.slice_interval == 86400,
            r.slice_keeptime == 259200,
            r.history_thread == 10,
            r.disable_self_trade == true,
            r.disable_market_order == false,
            r.user_order_num_limit == 1000,
    {
        Settings {
            debug: false,
            db_log: String::new(),
            db_history: String::new(),
            keycloak_pubkey: String::new(),
            keycloak_admin_role: String::new(),
            keycloak_deposit_admin_role: String::new(),
            keycloak_withdrawal_admin_role: String::new(),
            history_persist_policy: PersistPolicy::ToMessage,
            market_from_db: true,
            assets: Vec::new(),
            markets: Vec::new(),
            consumer_group: "kline_data_fetcher".to_owned(),
            brokers: "127.0.0.1:9092".to_owned(),
            persist_interval: 3600,
            slice_interval: 86400,
            slice_keeptime: 259200,
            history_thread: 10,
            disable_self_trade: true,
            disable_market_order: false,
            user_order_num_limit: 1000,
        }
    }
}

} // verus!
