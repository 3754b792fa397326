//! DHCPv4 for embedded network stacks: the BOOTP/DHCP wire codec, raw IPv4 and
//! UDP framing with checksums, the client's messages and decisions, and a
//! server's bounded lease table. Socket I/O, timers and randomness stay with
//! the caller; every function here is verified against its contract.
pub mod error;
pub mod codec;
pub mod client;
pub mod server;
pub mod raw;
pub mod http;
