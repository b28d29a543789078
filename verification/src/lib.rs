//! A verified persistence and orchestration layer for a single resting order
//! book: a key codec for (symbol, price) identities, a transcoder between the
//! live book and its flat string-keyed snapshot, a snapshot document codec,
//! a store model, a matching-strategy selector, and the request orchestrator
//! that drives the load, hydrate, match, persist cycle around an outside
//! matching engine.
//!
//! The model makes three deliberate restrictions so that every value is a
//! plain one the contracts can pin down exactly. Prices are cent counts:
//! finer-than-cent prices are not representable and decode as malformed.
//! Symbols and client order ids are byte strings; the snapshot document
//! stores them verbatim, so its three delimiter bytes cannot appear in them,
//! and an inbound order carrying one is refused up front. At the matching
//! boundary the engine keeps text as UTF-8 strings and prices as binary
//! floating point, so a book is handed over only when its bytes and counts
//! survive those conversions unchanged; anything else is refused as unsafe
//! for the engine rather than silently conflated.

pub mod bytes;
pub mod errors;
pub mod order;
pub mod num;
pub mod key;
pub mod book;
pub mod doc;
pub mod store;
pub mod strategy;
pub mod upload;
pub mod engine;
pub mod orchestrator;
