//! Verified core of a market-log quoting tool.
//!
//! The library ingests plain-text market-order snapshots dumped by a game
//! client, derives a quoted price for the traded item, and keeps the result
//! in a shared market state.  Prices are held as fixed-point integers
//! (hundredths of one currency unit) so that every price computation is
//! exact and verified.
#![verifier::loop_isolation(false)]
pub mod esi;
pub mod filename;
pub mod locate;
pub mod market;
pub mod parse;
pub mod price;
pub mod record;
pub mod text;
pub mod watch;
