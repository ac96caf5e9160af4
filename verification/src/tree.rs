//! The trie for networks in CIDR notation, and the prefix tree: a set of
//! IPv4 prefixes with membership by longest match.

use crate::bits::{key_bits, lemma_key_bits_masked, lemma_prefix_mask_len, mask_len, prefix_mask};
use crate::ipv4::{ipv4_of, parse_ipv4};
use crate::lookup::{is_match, lemma_no_match, longest_match};
use crate::node::Node;
use crate::prefix::{cidr_of, CidrPrefix, IpAddress, ParseError};
use vstd::prelude::*;
use vstd::string::StringSliceAdditionalSpecFns;

verus! {

impl<T: Copy> Node<T> {
    /// Stores `val` for the network that `cidr` denotes in CIDR notation. A
    /// value stored before for the same network is replaced. A text that
    /// denotes no network, or an IPv6 network, is refused and leaves the
    /// trie as it was.
    pub fn insert_cidr(&mut self, cidr: &str, val: T) -> (added: Result<(), ParseError>)
        ensures
            match cidr_of(cidr.spec_bytes()) {
                Ok(p) => match p.net {
                    IpAddress::V4(net) => added == Ok::<(), ParseError>(()) && final(self)@ == old(
                        self,
                    )@.insert(key_bits(net, p.prefix as nat), val),
                    IpAddress::V6(_) => added == Err::<(), ParseError>(ParseError::UnsupportedFamily)
                        && *final(self) == *old(self),
                },
                Err(e) => added == Err::<(), ParseError>(e) && *final(self) == *old(self),
            },
    {
        let prefix = match CidrPrefix::from_str(cidr) {
            Ok(prefix) => prefix,
            Err(e) => {
                return Err(e);
            },
        };
        match prefix.net {
            IpAddress::V4(net) => {
                let len: u32 = prefix.prefix as u32;
                let mask: u32 = if len == 0 {
                    0
                } else {
                    0xffff_ffffu32 << (32 - len)
                };
                proof {
                    lemma_prefix_mask_len(len);
                }
                self.insert(net, mask, val);
                Ok(())
            },
            IpAddress::V6(_) => Err(ParseError::UnsupportedFamily),
        }
    }

    /// The value of the most specific stored network that covers the
    /// address that `addr` denotes in dotted-quad notation; `None` if no
    /// stored network covers it.
    pub fn find_v4_str(&self, addr: &str) -> (found: Result<Option<T>, ParseError>)
        ensures
            found == match ipv4_of(addr.spec_bytes()) {
                Some(a) => Ok::<Option<T>, ParseError>(longest_match(self@, a, 32)),
                None => Err::<Option<T>, ParseError>(ParseError::InvalidAddress),
            },
    {
        match parse_ipv4(addr.as_bytes()) {
            Some(a) => {
                proof {
                    assert(prefix_mask(32) == 0xffff_ffffu32) by (bit_vector);
                    lemma_prefix_mask_len(32);
                }
                Ok(self.find(a, 0xffffffff))
            },
            None => Err(ParseError::InvalidAddress),
        }
    }
}

/// A set of IPv4 prefixes, kept in a binary trie.
pub struct PrefixTree {
    root: Node<u8>,
}

impl View for PrefixTree {
    type V = Set<Seq<bool>>;

    /// The prefixes of the tree, each as the sequence of its bits.
    closed spec fn view(&self) -> Set<Seq<bool>> {
        self.root@.dom()
    }
}

impl PrefixTree {
    /// Some prefix of the tree covers `addr`.
    pub open spec fn covers(self, addr: u32) -> bool {
        exists|len: nat| len <= 32 && #[trigger] self@.contains(key_bits(addr, len))
    }

    /// The tree covers every address that agrees with one of its networks
    /// under the mask of as many leading ones as the network is long.
    pub proof fn lemma_covers_network(self, net: u32, len: u32, addr: u32)
        requires
            len <= 32,
            self@.contains(key_bits(net, len as nat)),
            addr & prefix_mask(len) == net & prefix_mask(len),
        ensures
            self.covers(addr),
    {
        lemma_key_bits_masked(addr, net, len);
        assert(self@.contains(key_bits(addr, len as nat)));
    }

    /// The tree without prefixes.
    pub fn new() -> (tree: PrefixTree)
        ensures
            tree@ == Set::<Seq<bool>>::empty(),
    {
        let tree = PrefixTree { root: Node::<u8>::new() };
        assert(tree@ =~= Set::<Seq<bool>>::empty());
        tree
    }

    /// Adds the prefix made of the bits of `net` that `mask` makes
    /// significant.
    pub fn add_prefix(&mut self, net: u32, mask: u32)
        ensures
            final(self)@ == old(self)@.insert(key_bits(net, mask_len(mask))),
    {
        self.root.insert(net, mask, 1);
        assert(self@ =~= old(self)@.insert(key_bits(net, mask_len(mask))));
    }

    /// Adds the network that `cidr` denotes in CIDR notation. A text that
    /// denotes no network, or an IPv6 network, is refused and leaves the
    /// tree as it was.
    pub fn add_cidr(&mut self, cidr: &str) -> (added: Result<(), ParseError>)
        ensures
            match cidr_of(cidr.spec_bytes()) {
                Ok(p) => match p.net {
                    IpAddress::V4(net) => added == Ok::<(), ParseError>(()) && final(self)@ == old(
                        self,
                    )@.insert(key_bits(net, p.prefix as nat)),
                    IpAddress::V6(_) => added == Err::<(), ParseError>(ParseError::UnsupportedFamily)
                        && *final(self) == *old(self),
                },
                Err(e) => added == Err::<(), ParseError>(e) && *final(self) == *old(self),
            },
    {
        let added = self.root.insert_cidr(cidr, 1);
        proof {
            if added is Ok {
                let p = cidr_of(cidr.spec_bytes())->Ok_0;
                assert(self@ =~= old(self)@.insert(key_bits(p.net->V4_0, p.prefix as nat)));
            }
        }
        added
    }

    /// Whether some prefix of the tree covers `addr`.
    pub fn contains_addr_v4(&self, addr: u32) -> (found: bool)
        ensures
            found == self.covers(addr),
    {
        let found = self.root.find(addr, 0xffffffff).is_some();
        proof {
            assert(prefix_mask(32) == 0xffff_ffffu32) by (bit_vector);
            lemma_prefix_mask_len(32);
            lemma_no_match(self.root@, addr, 32);
            if found {
                let len = choose|len: nat| len <= 32 && #[trigger] is_match(self.root@, addr, len);
                assert(self@.contains(key_bits(addr, len)));
            } else {
                assert forall|len: nat| len <= 32 implies !#[trigger] self@.contains(
                    key_bits(addr, len),
                ) by {
                    assert(!is_match(self.root@, addr, len));
                }
            }
        }
        found
    }

    /// Whether some prefix of the tree covers the address that `addr`
    /// denotes in dotted-quad notation.
    pub fn contains_addr_v4_str(&self, addr: &str) -> (found: Result<bool, ParseError>)
        ensures
            found == match ipv4_of(addr.spec_bytes()) {
                Some(a) => Ok::<bool, ParseError>(self.covers(a)),
                None => Err::<bool, ParseError>(ParseError::InvalidAddress),
            },
    {
        match parse_ipv4(addr.as_bytes()) {
            Some(a) => Ok(self.contains_addr_v4(a)),
            None => Err(ParseError::InvalidAddress),
        }
    }
}

} // verus!
