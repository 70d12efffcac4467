//! A REALITY server for VLESS over TCP: everything it decides and computes.
//!
//! A connection starts with a TLS 1.3 ClientHello. [`tls_client_hello`] reads
//! it, [`reality`] authenticates the client by what is sealed into its session
//! ID, and [`connection`] decides whether the handshake goes on or the
//! connection is passed to the fallback server. [`certificate`] makes the
//! temporary certificate that only the authenticated client can recognise.
//! [`vless`] reads the request that comes next, and [`relay`] turns it into a
//! connection to its target. [`config`] makes the server's configuration out of
//! the texts of a file.
//!
//! Sockets, files, the clock and the TLS record engine lie outside: the library
//! takes the bytes that were read and gives back what to do with them.
//!
//! [`crypto`] holds the operations that outside crates compute, [`bytes`] and
//! [`text`] what the other modules share. [`hello_wire`] and [`hello_meaning`]
//! describe the messages that a client sends, and state that they are understood
//! and that nothing else is.

pub mod bytes;
pub mod certificate;
pub mod config;
pub mod connection;
pub mod crypto;
pub mod hello_meaning;
pub mod hello_wire;
pub mod reality;
pub mod relay;
pub mod text;
pub mod tls_client_hello;
pub mod vless;
