//! Order-book keeping, feed reading and request signing for a market-making bot that
//! quotes with the Guéant–Lehalle–Fernandez-Tapia model, each function with its contract.
//!
//! - `decimal`: the plain model of exchange decimals and their order-preserving sort key;
//! - `json`: JSON values as the feed delivers them, and price levels read from them;
//! - `book`: one pair's order book, each side cut to the best `depth` levels;
//! - `feed`: what the book channel's messages say, and the books of all pairs;
//! - `intensity`: the arrival counts behind the trading-intensity estimate;
//! - `kraken`: signed order requests and client order ids.

pub mod book;
pub mod decimal;
pub mod feed;
pub mod intensity;
pub mod json;
pub mod kraken;
