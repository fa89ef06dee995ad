//! Configuration of the library's sockets.
pub mod socket;
