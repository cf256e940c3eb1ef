//! A verified encoder for the line-oriented text exposition format scraped by
//! pull-based metrics collectors.
//!
//! A metric snapshot (counter, gauge, set, client-side distribution, or
//! pre-aggregated histogram/summary) is walked once and turned into textual
//! sample lines with deterministic tag ordering and deterministic numeric
//! formatting. Numeric values are decimal numbers of the library's own
//! [`num::Num`] type, so every step of the encoding, including the text of
//! each number, is specified and proved.

pub mod collector;
pub mod events;
pub mod metric;
pub mod num;
pub mod render;
pub mod stats;
