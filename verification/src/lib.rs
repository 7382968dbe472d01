//! An exchange-rate oracle: a binary codec for rate observations, the key
//! scheme and atomic batches of an ordered store, the queries served from
//! it, and the decisions of the polling daemon that fills it.

pub mod backend;
pub mod bytes;
pub mod comments;
pub mod compaction;
pub mod daemon;
pub mod error;
pub mod exchange_rate;
pub mod foreign;
pub mod handlers;
pub mod history;
pub mod keys;
pub mod oracle_ser;
pub mod oracle_store;
pub mod ranking;
pub mod record_codec;
pub mod types;

pub use self::backend::MemBackend;
pub use self::error::Error;
pub use self::types::{OracleBackend, OracleInst};
