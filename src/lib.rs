//! Routing policy core of an HTTP-to-SOCKS5 proxy: a packed suffix trie over
//! host names, IP prefix sets and the per-connection routing decision.

pub mod domains;
pub mod error;
pub mod host_laws;
pub mod ips;
pub mod matchers;
pub mod old_domains;
pub mod policy;

pub use domains::Domains;
pub use domains::Domains as NewDomains;
pub use error::Error;
pub use ips::{Addr, IpPrefix, Ips};
