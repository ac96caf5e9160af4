//! The trie node: one level of the tree per bit of a key.

use crate::bits::{
    bit_at, key_bits, lemma_key_bits_step, lemma_mask_len_step, lemma_mask_len_zero, lemma_top_bit,
    mask_len,
};
use crate::lookup::{first_some, is_match, longest_match};
use vstd::prelude::*;

verus! {

/// A node of the binary trie. The path from the root to a node spells a
/// prefix; the node holds a value exactly when that prefix was inserted.
#[derive(Debug)]
pub struct Node<T> where T: Copy {
    left: Option<Box<Node<T>>>,
    right: Option<Box<Node<T>>>,
    val: Option<T>,
}

impl<T: Copy> Node<T> {
    /// The value stored at the end of `path` below this node, if any.
    /// `false` takes the zero-branch, `true` the one-branch.
    spec fn entry(self, path: Seq<bool>) -> Option<T>
        decreases path.len(), 0nat,
    {
        if path.len() == 0 {
            self.val
        } else {
            Self::entry_below(self.child(path[0]), path.drop_first())
        }
    }

    /// The value stored at the end of `path` below a child that may be
    /// absent.
    spec fn entry_below(child: Option<Box<Node<T>>>, path: Seq<bool>) -> Option<T>
        decreases path.len(), 1nat,
    {
        match child {
            None => None,
            Some(node) => node.entry(path),
        }
    }

    /// The number of nodes of the tree that starts at this node.
    pub closed spec fn size(self) -> nat
        decreases self,
    {
        1 + Self::size_below(self.left) + Self::size_below(self.right)
    }

    /// The number of nodes of the tree that starts at a child that may be
    /// absent.
    spec fn size_below(child: Option<Box<Node<T>>>) -> nat
        decreases child,
    {
        match child {
            None => 0,
            Some(node) => node.size(),
        }
    }

    /// The number of nodes that exist along `path` below this node: how far
    /// a descent along `path` gets before a child is missing.
    pub closed spec fn reach(self, path: Seq<bool>) -> nat
        decreases path.len(),
    {
        if path.len() == 0 {
            0
        } else {
            match self.child(path[0]) {
                None => 0,
                Some(node) => 1 + node.reach(path.drop_first()),
            }
        }
    }

    /// The prefixes stored in and below a child that may be absent.
    spec fn table_below(child: Option<Box<Node<T>>>) -> Map<Seq<bool>, T> {
        match child {
            None => Map::empty(),
            Some(node) => node.table(),
        }
    }

    /// The prefixes stored in and below this node, each with its value.
    pub closed spec fn table(self) -> Map<Seq<bool>, T> {
        Map::new(|path: Seq<bool>| self.entry(path) is Some, |path: Seq<bool>| self.entry(path)->0)
    }
}

impl<T: Copy> View for Node<T> {
    type V = Map<Seq<bool>, T>;

    open spec fn view(&self) -> Map<Seq<bool>, T> {
        self.table()
    }
}

impl<T: Copy> Node<T> {
    /// A node without value or children.
    pub fn new() -> (node: Node<T>)
        ensures
            node@ == Map::<Seq<bool>, T>::empty(),
            node.size() == 1,
            forall|path: Seq<bool>| #[trigger] node.reach(path) == 0,
    {
        let node = Node::<T> { left: None, right: None, val: None };
        proof {
            assert forall|path: Seq<bool>| node.entry(path) is None by {
                if path.len() > 0 {
                    assert(Self::entry_below(None, path.drop_first()) is None);
                }
            }
            assert(node@ =~= Map::<Seq<bool>, T>::empty());
        }
        node
    }

    /// Stores `val` for the prefix made of the bits of `key` that `mask`
    /// makes significant, creating the nodes on the way that do not exist
    /// yet: one for each bit of the prefix beyond those that a descent
    /// along it reaches already. A value stored before for the same prefix
    /// is replaced; every other prefix keeps its value.
    pub fn insert(&mut self, key: u32, mask: u32, val: T)
        ensures
            final(self)@ == old(self)@.insert(key_bits(key, mask_len(mask)), val),
            final(self).size() == old(self).size() + mask_len(mask) - old(self).reach(
                key_bits(key, mask_len(mask)),
            ),
            final(self).reach(key_bits(key, mask_len(mask))) == mask_len(mask),
        decreases mask_len(mask),
    {
        let bit: u32 = 0x80000000;
        let ghost before = *self;
        if mask == 0 {
            self.val = Some(val);
            proof {
                lemma_mask_len_zero(mask);
                assert(key_bits(key, 0) =~= Seq::<bool>::empty());
                assert forall|path: Seq<bool>| self.entry(path) == if path == Seq::<bool>::empty() {
                    Some(val)
                } else {
                    before.entry(path)
                } by {
                    if path.len() == 0 {
                        assert(path =~= Seq::<bool>::empty());
                    }
                }
                assert(self@ =~= before@.insert(key_bits(key, 0), val));
            }
            return ;
        }
        proof {
            lemma_mask_len_zero(mask);
            lemma_mask_len_step(mask);
            lemma_top_bit(key);
            lemma_key_bits_step(key, mask_len(mask));
        }
        let next_node = if (key & bit) == 0 {
            &mut self.left
        } else {
            &mut self.right
        };
        match next_node {
            Some(boxed_node) => boxed_node.insert(key << 1, mask << 1, val),
            None => {
                let mut new_node = Node::<T>::new();
                new_node.insert(key << 1, mask << 1, val);
                *next_node = Some(Box::new(new_node));
            },
        }
        proof {
            let rest = key_bits(key << 1u32, (mask_len(mask) - 1) as nat);
            Self::lemma_insert_below(before, *self, bit_at(key, 0), rest, val);
            Self::lemma_grow_below(before, *self, bit_at(key, 0), rest);
        }
    }

    /// Descends along the bits of `key` that `mask` makes significant and
    /// answers with the value of the deepest node on the way that holds
    /// one, or with `cur_val` if none does.
    pub fn _find(&self, key: u32, mask: u32, cur_val: Option<T>) -> (found: Option<T>)
        ensures
            found == first_some(longest_match(self@, key, mask_len(mask)), cur_val),
        decreases mask_len(mask),
    {
        let bit: u32 = 0x80000000;
        let best = match self.val {
            Some(v) => Some(v),
            None => cur_val,
        };
        proof {
            lemma_mask_len_zero(mask);
            self.lemma_match_below(key, mask_len(mask));
        }
        if mask == 0 {
            return best;
        }
        proof {
            lemma_mask_len_step(mask);
            lemma_top_bit(key);
        }
        let next_node = if (key & bit) == 0 {
            &self.left
        } else {
            &self.right
        };
        match next_node {
            Some(boxed_node) => boxed_node._find(key << 1, mask << 1, best),
            None => {
                proof {
                    Self::lemma_match_nothing(key << 1u32, (mask_len(mask) - 1) as nat);
                }
                best
            },
        }
    }

    /// The value of the longest stored prefix, among the bits of `key` that
    /// `mask` makes significant, that `key` starts with; `None` if there is
    /// no such prefix.
    pub fn find(&self, key: u32, mask: u32) -> (found: Option<T>)
        ensures
            found == longest_match(self@, key, mask_len(mask)),
    {
        self._find(key, mask, None)
    }

    /// The child of this node on the branch that `bit` selects.
    spec fn child(self, bit: bool) -> Option<Box<Node<T>>> {
        if bit {
            self.right
        } else {
            self.left
        }
    }

    /// A descent gets no further than its path is long, every node that it
    /// reaches is a node of the tree, and it reaches the end of every path
    /// that holds a value.
    pub proof fn lemma_reach(self, path: Seq<bool>)
        ensures
            self.reach(path) <= path.len(),
            self.size() >= 1 + self.reach(path),
            self@.dom().contains(path) ==> self.reach(path) == path.len(),
        decreases path.len(),
    {
        if path.len() > 0 {
            match self.child(path[0]) {
                None => {},
                Some(node) => {
                    node.lemma_reach(path.drop_first());
                },
            }
        }
    }

    proof fn lemma_match_nothing(key: u32, n: nat)
        ensures
            longest_match(Self::table_below(None), key, n) is None,
        decreases n,
    {
        if n > 0 {
            Self::lemma_match_nothing(key, (n - 1) as nat);
        }
    }

    /// What a key finds from a node is what it finds below the child that
    /// its leading bit selects, or else the node's own value.
    proof fn lemma_match_below(self, key: u32, n: nat)
        requires
            n <= 32,
        ensures
            longest_match(self@, key, n) == if n == 0 {
                self.val
            } else {
                first_some(
                    longest_match(
                        Self::table_below(self.child(bit_at(key, 0))),
                        key << 1u32,
                        (n - 1) as nat,
                    ),
                    self.val,
                )
            },
        decreases n,
    {
        let path = key_bits(key, n);
        if n == 0 {
            assert(path =~= Seq::<bool>::empty());
            assert(self.entry(path) == self.val);
        } else {
            let below = Self::table_below(self.child(bit_at(key, 0)));
            let shifted = key << 1u32;
            lemma_key_bits_step(key, n);
            Self::lemma_entry_below(self.child(bit_at(key, 0)), key_bits(shifted, (n - 1) as nat));
            assert(self.entry(path) == Self::entry_below(self.child(path[0]), path.drop_first()));
            self.lemma_match_below(key, (n - 1) as nat);
            if !is_match(self@, key, n) {
                if n == 1 {
                    assert(key_bits(shifted, 0) =~= Seq::<bool>::empty());
                    assert(longest_match(below, shifted, 0) is None);
                } else {
                    assert(longest_match(below, shifted, (n - 1) as nat) == longest_match(
                        below,
                        shifted,
                        (n - 2) as nat,
                    ));
                }
            }
        }
    }

    proof fn lemma_grow_below(before: Node<T>, after: Node<T>, bit: bool, rest: Seq<bool>)
        requires
            after.child(!bit) == before.child(!bit),
            after.child(bit) is Some,
            after.child(bit)->0.reach(rest) == rest.len(),
            after.child(bit)->0.size() == match before.child(bit) {
                None => 1 + rest.len() as int,
                Some(node) => node.size() + rest.len() - node.reach(rest),
            },
        ensures
            after.size() == before.size() + (1 + rest.len()) - before.reach(seq![bit] + rest),
            after.reach(seq![bit] + rest) == 1 + rest.len(),
    {
        let full = seq![bit] + rest;
        assert(full.drop_first() =~= rest);
        assert(full[0] == bit);
    }

    proof fn lemma_entry_below(child: Option<Box<Node<T>>>, path: Seq<bool>)
        ensures
            Self::entry_below(child, path) == if Self::table_below(child).dom().contains(path) {
                Some(Self::table_below(child)[path])
            } else {
                None
            },
    {
    }

    proof fn lemma_insert_below(before: Node<T>, after: Node<T>, bit: bool, rest: Seq<bool>, val: T)
        requires
            after.val == before.val,
            after.child(!bit) == before.child(!bit),
            Self::table_below(after.child(bit)) == Self::table_below(before.child(bit)).insert(
                rest,
                val,
            ),
        ensures
            after@ == before@.insert(seq![bit] + rest, val),
    {
        let full = seq![bit] + rest;
        assert(full.drop_first() =~= rest);
        assert forall|path: Seq<bool>| after.entry(path) == if path == full {
            Some(val)
        } else {
            before.entry(path)
        } by {
            if path.len() > 0 {
                Self::lemma_entry_below(after.child(path[0]), path.drop_first());
                Self::lemma_entry_below(before.child(path[0]), path.drop_first());
                if path[0] == bit && path.drop_first() == rest {
                    assert(path =~= full);
                }
            }
        }
        assert(after@ =~= before@.insert(full, val));
    }
}

} // verus!
