//! A persistent key/value store: a log-structured storage engine, the wire
//! format that clients and servers speak, and the request handling around it.
//!
//! The library holds the decisions and the data formats; opening files,
//! sockets and threads is left to the caller, which hands the library plain
//! bytes and values.

pub mod codec;
pub mod engine;
pub mod error;
pub mod index;
pub mod protocol;
pub mod record;
pub mod sled_engine;
pub mod thread_pool;

pub use codec::Decoded;
pub use engine::{select_engine, Engine, KvsEngine};
pub use error::KvsError;
pub use index::{LogIndex, LogPointer, COMPACTION_THRESHOLD};
pub use protocol::{
    get_response, handle_request, next_step, remove_response, set_response, GetResponse,
    RemoveResponse, Request, Response, SetResponse, Step,
};
pub use record::Command;
pub use sled_engine::{removal_outcome, stored_value, SledKvsEngine};
pub use thread_pool::ThreadPool;
