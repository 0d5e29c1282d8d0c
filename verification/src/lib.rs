//! Verified core of a C-ABI layer over a technical-analysis indicator
//! library: result shaping for indicator runs, the candlestick pattern
//! table and its compressed per-bar output, and the stable indicator ids.
pub mod candlestick;
pub mod common;
pub mod lex;
pub mod ids;
