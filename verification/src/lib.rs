//! Discovery core for network audio receivers advertised through
//! mDNS-style service records.
//!
//! The crate decodes binary resource records, stabilizes the set of
//! discovered hosts across lossy polling cycles with a retry-count
//! hysteresis, normalizes resolved addresses (notably IPv6 scope-id
//! handling), maps auxiliary text records to structured sink
//! properties, and deduplicates endpoints so that exactly one sink is
//! requested per unique `(hostname, socket address)` pair. The
//! unverified edge of the program performs the resolver queries and
//! the sink creation and hands plain values in and out.

pub mod bytes;
pub mod endpoint;
pub mod presence;
pub mod props;
pub mod registry;
pub mod rr;
