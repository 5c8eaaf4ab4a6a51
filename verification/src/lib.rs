//! A small framework for servers that speak the RESP wire protocol: a codec
//! between wire bytes and typed values, and the rules by which a connection
//! reads frames, hands them to a handler and writes the replies.

pub mod conn;
pub mod decimal;
pub mod decoder;
pub mod laws;
pub mod resp;
pub mod text;

pub use conn::Conn;
pub use resp::{Error, Type};
