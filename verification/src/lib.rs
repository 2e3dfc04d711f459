//! A climbing-gym route log: an ordered ledger of routes with tick history,
//! a deterministic stable sort policy over taxonomy ranks, pure statistics
//! folds, a relative-time formatter, and a JSON snapshot codec.

pub mod strutil;
pub mod codec;
pub mod dispatch;
pub mod host;
pub mod ledger;
pub mod order;
pub mod reltime;
pub mod route;
pub mod stats;
pub mod taxonomy;
