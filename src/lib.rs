//! A request/response message broker: the wire types, the frame codec, the
//! broker's routing registry, the connection table, and the client and
//! responder bookkeeping, each with its contract.

pub mod id;
pub mod message;
pub mod table;
pub mod fresh;
pub mod registry;
pub mod frame;
pub mod connections;
pub mod client;
pub mod responder;
pub mod laws;
