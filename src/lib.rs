//! A client library for the kRPC remote procedure call protocol: the value
//! codec, the schema messages, batched calls and stream updates.
pub mod wire;
pub mod codec;
pub mod krpc;
pub mod error;
pub mod client;
pub mod stream;
pub mod space_center;

pub use client::RPCRequest;
pub use stream::StreamUpdate;
