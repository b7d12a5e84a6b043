//! Resolution of message-bus endpoint addresses.
//!
//! An address is a text of the form `unix:key=value,key=value,...`. This
//! crate resolves which address text to use (an explicit value, an
//! environment-provided value, or a well-known fallback), parses the text
//! into a connection mode and a value, and encodes the pair into a
//! fixed-capacity unix socket address record ready for a blocking connect.

pub mod address;
pub mod sockaddr;
