//! A pari-mutuel prediction-game engine.
//!
//! Users stake a fungible token on whether an asset's price will rise (bull)
//! or fall (bear) over a timed round.  Rounds move through a three-stage
//! lifecycle (bidding, live, finished); a price observation taken at open and
//! close decides the winner, and winners split the whole pool in proportion
//! to their share of the winning side's stake, minus a protocol fee that is
//! divided among configured recipient wallets.  A sibling engine generalizes
//! the two-sided outcome to an arbitrary set of named options resolved by an
//! administrator.
//!
//! All amounts are plain `u128` token units, prices are `i128` values at a
//! fixed decimal scale, times are `u64` unix seconds, and accounts are their
//! address strings.  The host chain adapter converts to and from its own
//! wrapper types and performs storage, token transfers and oracle queries;
//! everything that decides or computes lives here, with its behaviour stated
//! in contracts.

pub mod errors;
pub mod types;
pub mod math;
pub mod settle;
pub mod fees;
pub mod game;
pub mod queries;
pub mod dao_bets;
