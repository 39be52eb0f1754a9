//! Core of a DHCP server: the wire-level packet codec, the in-memory pool of
//! assignable IPv4 addresses, the lease ledger with logical deletion, and the
//! decision rule of the ICMP conflict probe.
//!
//! All I/O (UDP sockets, the SQLite ledger file, raw ICMP sockets) lives
//! outside this crate; these modules work on plain values and are verified.

pub mod addr;
pub mod packet;
pub mod lease;
pub mod pool;
pub mod probe;
pub mod server;
pub mod text;

pub use addr::Ipv4;
pub use addr::Mac;
