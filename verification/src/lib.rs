//! A scheduler for URLs waiting to be fetched.
//!
//! Every queued URL has a base priority (lower is more urgent) that improves
//! with the time it has waited. A failed fetch is retried after an
//! exponentially growing delay, and a URL that has used up its retries is
//! moved to a dead-letter list.
//!
//! All quantities are whole numbers whose units the caller picks: priorities
//! in priority units, instants and delays in ticks, and the aging weight in
//! priority units per tick.

pub mod codec;
pub mod policy;
pub mod selection;
pub mod retry;
pub mod service;
