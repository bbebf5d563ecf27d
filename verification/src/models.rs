//! Plain data of the exchange.
//!
//! Identifiers are 128-bit integers. Prices, quantities and balances are
//! exact: each is a whole number of the smallest unit it is quoted in, so
//! that equal amounts are equal integers and no arithmetic rounds. Instants
//! are milliseconds since the Unix epoch.

use vstd::prelude::*;

verus! {

#[derive(Debug, Clone, Copy, PartialEq, Eq, Structural)]
pub enum InstrumentType {
    STOCK,
    ETF,
    BOND,
    COMMODITY,
}

#[derive(Debug, Clone, Copy, PartialEq, Eq, Structural)]
pub enum OrderType {
    LIMIT,
    MARKET,
}

#[derive(Debug, Clone, Copy, PartialEq, Eq, Structural)]
pub enum OrderSide {
    BUY,
    SELL,
}

#[derive(Debug, Clone, Copy, PartialEq, Eq, Structural)]
pub enum InstrumentStatus {
    ACTIVE,
    SUSPENDED,
    DELISTED,
}

#[derive(Debug, Clone, Copy, PartialEq, Eq, Structural)]
pub enum BrokerStatus {
    ACTIVE,
    SUSPENDED,
    TERMINATED,
}

#[derive(Debug, Clone, Copy, PartialEq, Eq, Structural)]
pub enum OrderStatus {
    PENDING,
    PARTIAL,
    FILLED,
    CANCELLED,
    REJECTED,
}

#[allow(non_camel_case_types)]
#[derive(Debug, Clone, Copy, PartialEq, Eq, Structural)]
pub enum TradeStatus {
    PENDING_SETTLEMENT,
    SETTLED,
    FAILED,
}

#[derive(Debug, Clone)]
pub struct Instrument {
    pub id: u128,
    pub symbol: String,
    pub name: String,
    pub instrument_type: InstrumentType,
    pub status: InstrumentStatus,
    pub lot_size: i32,
    pub tick_size: u128,
    pub created_at: i64,
    pub updated_at: i64,
}

#[derive(Debug, Clone)]
pub struct Broker {
    pub id: u128,
    pub broker_code: String,
    pub name: String,
    pub status: BrokerStatus,
    pub created_at: i64,
    pub updated_at: i64,
}

#[derive(Debug, Clone)]
pub struct CashPosition {
    pub id: u128,
    pub broker_id: u128,
    pub currency: String,
    pub total_balance: u128,
    pub locked_balance: u128,
    pub created_at: i64,
    pub updated_at: i64,
}

#[derive(Debug, Clone, Copy)]
pub struct SecurityPosition {
    pub id: u128,
    pub broker_id: u128,
    pub instrument_id: u128,
    pub total_quantity: u128,
    pub locked_quantity: u128,
    pub created_at: i64,
    pub updated_at: i64,
}

/// An instruction to buy or sell a quantity of one instrument.
///
/// `price` is present on a limit order and absent on a market order.
#[derive(Debug, Clone, Copy, PartialEq, Eq)]
pub struct Order {
    pub id: u128,
    pub broker_id: u128,
    pub instrument_id: u128,
    pub order_type: OrderType,
    pub side: OrderSide,
    pub status: OrderStatus,
    pub price: Option<u128>,
    pub original_quantity: u128,
    pub remaining_quantity: u128,
    pub created_at: i64,
    pub updated_at: i64,
}

/// The record of one crossing between a buyer and a seller.
#[derive(Debug, Clone, Copy, PartialEq, Eq)]
pub struct Trade {
    pub id: u128,
    pub instrument_id: u128,
    pub buyer_order_id: u128,
    pub seller_order_id: u128,
    pub buyer_broker_id: u128,
    pub seller_broker_id: u128,
    pub price: u128,
    pub quantity: u128,
    pub execution_time: i64,
    pub status: TradeStatus,
    pub settlement_time: Option<i64>,
}

#[derive(Debug, Clone, Copy)]
pub struct OrderIndex {
    pub instrument_id: u128,
    pub status: OrderStatus,
    pub price: u128,
}

#[derive(Debug, Clone, Copy)]
pub struct TradeIndex {
    pub status: TradeStatus,
}

#[derive(Debug, Clone, Copy)]
pub struct SecurityPositionIndex {
    pub broker_id: u128,
}

#[derive(Debug, Clone, Copy)]
pub struct CashPositionIndex {
    pub broker_id: u128,
}

} // verus!
