//! The errors of connecting and of calling.
use vstd::prelude::*;
use crate::codec::CodecError;
use crate::krpc::{ConnectionStatus, Error};

verus! {

/// Why a connection could not be set up.
#[derive(Debug)]
pub enum ConnectionError {
    /// The handshake's reply was not a well-formed message.
    ProtobufErr(CodecError),
    /// The server refused the connection, with its status and message.
    ConnectionRefused { error: String, status: ConnectionStatus },
}

/// Why a call gave no value.
#[derive(Debug)]
pub enum RPCError {
    /// The remote procedure reported a failure.
    KRPCRequestErr(Error),
    /// The reply or the value in it was malformed.
    ProtobufErr(CodecError),
    /// The stream update holds no result for the stream asked for.
    NoSuchStream,
}

} // verus!
