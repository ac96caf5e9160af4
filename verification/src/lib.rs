//! Longest-prefix-match lookup over IPv4 networks.
//!
//! A binary trie keyed bit by bit on 32-bit addresses stores prefixes with
//! their values and answers, for an address, with the value of the most
//! specific prefix that covers it. Networks are read from and written in
//! CIDR notation.
//!
//! - [`bits`]: keys and masks as sequences of bits.
//! - [`lookup`]: what the longest match in a table of prefixes is.
//! - [`node`]: the trie.
//! - [`tree`]: a set of IPv4 networks on top of the trie.
//! - [`text`], [`ipv4`], [`ipv6`], [`ipv6_text`]: addresses as text.
//! - [`prefix`]: networks in CIDR notation.

pub mod bits;
pub mod ipv4;
pub mod ipv6;
pub mod ipv6_text;
pub mod lookup;
pub mod node;
pub mod prefix;
pub mod text;
pub mod tree;

pub use node::Node;
pub use prefix::{CidrPrefix, IpAddress, ParseError};
pub use tree::PrefixTree;
