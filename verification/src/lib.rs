//! A Redis-compatible core: a streaming RESP (Redis Serialization Protocol)
//! codec, a concurrent in-memory store with string, hash and set namespaces,
//! and a command layer that parses decoded frames into typed commands and
//! executes them against the store.

pub mod backend;
pub mod cmd;
pub mod resp;

pub use backend::Backend;
pub use cmd::{
    Command, CommandError, Echo, Get, HGet, HGetAll, HMGet, HSet, SAdd, SIsMember, SetCmd,
    Unrecognized,
};
pub use resp::frame::{
    BulkString, FrameView, RespArray, RespFrame, RespMap, RespNull, RespNullArray,
    RespNullBulkString, RespSet, SimpleError, SimpleString,
};
pub use resp::{RespDecode, RespEncode, RespError};
