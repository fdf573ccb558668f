//! A small networked key-value store: a typed value and command model, a
//! length-delimited frame codec with optional compression, an in-memory and
//! a persistent storage backend behind one contract, and a service layer
//! that dispatches decoded commands and runs a hook pipeline around each
//! execution. Two self-contained exercises live alongside the core: an
//! unbounded channel and a pair of generic-type examples.

pub mod error;
pub mod channel;
pub mod frame;
pub mod plans;
pub mod service;
pub mod sleddb;
pub mod storage;
pub mod value;
pub mod wire;

pub use channel::Receiver;
pub use channel::Sender;
pub use channel::Share;
pub use channel::unbounded;
pub use error::KvError;
pub use plans::Customer;
pub use plans::Equation;
pub use plans::Free;
pub use plans::FreePlan;
pub use plans::Linear;
pub use plans::Personal;
pub use plans::PersonalPlan;
pub use plans::Quadratic;
pub use service::CommandService;
pub use service::Nofiy;
pub use service::NotifyMut;
pub use service::Service;
pub use service::ServiceInner;
pub use service::StatusHook;
pub use service::SuffixHook;
pub use service::dispatch;
pub use sleddb::SledDb;
pub use storage::MemTable;
pub use storage::Storage;
pub use storage::StorageIter;
pub use value::CommandRequest;
pub use value::CommandResponse;
pub use value::Hget;
pub use value::Hgetall;
pub use value::Hset;
pub use value::Kvpair;
pub use value::RequestData;
pub use value::Value;
