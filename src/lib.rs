//! An in-memory key-value server core: the wire codec, the store engine and
//! the command dispatcher, each stated and proved against a mathematical model.

pub mod buf;
pub mod command;
pub mod conn;
pub mod parse;
pub mod resp;
pub mod codec_laws;
pub mod store;
pub mod store_laws;
pub mod text;

pub use command::{dispatch, error_reply, execute, interpret, Command};
pub use conn::Connection;
pub use resp::{RespError, RespValue};
pub use store::Store;
