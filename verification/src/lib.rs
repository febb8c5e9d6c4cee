//! Core runtime of a Wayland compositor server: the wire codec for the
//! Wayland message framing, the per-client buffers, the object table with
//! its lease discipline, and the protocol error taxonomy.
//!
//! All I/O (sockets, epoll, ancillary file-descriptor passing) lives outside
//! this crate; the library works on plain words, bytes and descriptor
//! numbers handed in and out by the caller.
use vstd::prelude::*;

pub mod event;
pub mod lease;
pub mod message;
pub mod ring;
pub mod server;
pub mod types;
pub mod wire;

verus! {

/// The library's error taxonomy. Protocol errors carry a `WlError` that
/// is reported to the client through `display.error`; the other
/// variants are internal or system conditions that end the connection.
#[derive(Debug)]
pub enum Error {
    /// The socket path was unusable.
    InvalidSocketPath,
    /// A second lease was attempted on an object already leased out.
    DoubleLease,
    /// A buffer was empty where a value was required.
    BufferEmpty,
    /// No global matched a bind request.
    NoGlobal,
    /// A client asked for a higher interface version than is offered.
    UnsupportedVersion(&'static str, u32),
    /// No object with the given id is in the table.
    NoObject(u32),
    /// An object with the given id already exists.
    DuplicateObject(u32),
    /// A protocol violation to report to the client.
    Protocol(wire::WlError),
    /// A string argument was not valid UTF-8.
    Utf8,
    /// An operating-system error, by errno.
    Sys(i32),
}

/// Shorthand for results carrying this library's error taxonomy.
pub type WlResult<T> = core::result::Result<T, Error>;

/// Name of the listening socket used when no other path is configured.
pub fn find_free_socket() -> (r: String)
    ensures
        r@ == "wayland.socket"@,
{
    "wayland.socket".to_owned()
}

} // verus!
