//! Longest-prefix matching over a table of prefixes.
//!
//! A prefix is the sequence of its significant bits, most significant first.
//! A table maps prefixes to values; a lookup answers with the value of the
//! longest prefix of the table that the key starts with.

use crate::bits::{key_bits, lemma_key_bits_masked, prefix_mask};
use vstd::prelude::*;

verus! {

/// The prefix of length `len` covers `key`: it is the first `len` bits of it.
pub open spec fn is_match<T>(table: Map<Seq<bool>, T>, key: u32, len: nat) -> bool {
    table.dom().contains(key_bits(key, len))
}

/// The value of the longest prefix of `table`, of at most `n` bits, that
/// `key` starts with.
pub open spec fn longest_match<T>(table: Map<Seq<bool>, T>, key: u32, n: nat) -> Option<T>
    decreases n,
{
    if is_match(table, key, n) {
        Some(table[key_bits(key, n)])
    } else if n == 0 {
        None
    } else {
        longest_match(table, key, (n - 1) as nat)
    }
}

/// `a` if it holds a value, else `b`.
pub open spec fn first_some<T>(a: Option<T>, b: Option<T>) -> Option<T> {
    if a is Some {
        a
    } else {
        b
    }
}

/// A lookup answers with the value of a prefix that covers the key, and no
/// longer prefix of the table covers it; it answers with nothing exactly
/// when no prefix of the table covers the key.
pub proof fn lemma_match_is_longest<T>(table: Map<Seq<bool>, T>, key: u32, n: nat)
    ensures
        match longest_match(table, key, n) {
            Some(v) => exists|len: nat|
                len <= n && #[trigger] is_match(table, key, len) && v == table[key_bits(key, len)]
                    && forall|longer: nat|
                    len < longer <= n ==> !#[trigger] is_match(table, key, longer),
            None => forall|len: nat| len <= n ==> !#[trigger] is_match(table, key, len),
        },
    decreases n,
{
    if is_match(table, key, n) {
    } else if n > 0 {
        lemma_match_is_longest(table, key, (n - 1) as nat);
        match longest_match(table, key, n) {
            Some(v) => {
                let len = choose|len: nat|
                    len <= n - 1 && #[trigger] is_match(table, key, len) && v == table[key_bits(key, len)]
                        && forall|longer: nat|
                        len < longer <= n - 1 ==> !#[trigger] is_match(table, key, longer);
                assert(is_match(table, key, len));
                assert forall|longer: nat| len < longer <= n implies !#[trigger] is_match(
                    table,
                    key,
                    longer,
                ) by {}
            },
            None => {},
        }
    }
}

/// Where a prefix of `len` bits covers the key and no longer one does, the
/// lookup answers with the value of that prefix.
pub proof fn lemma_longest_wins<T>(table: Map<Seq<bool>, T>, key: u32, n: nat, len: nat)
    requires
        len <= n,
        is_match(table, key, len),
        forall|longer: nat| len < longer <= n ==> !#[trigger] is_match(table, key, longer),
    ensures
        longest_match(table, key, n) == Some(table[key_bits(key, len)]),
    decreases n,
{
    if n > len {
        lemma_longest_wins(table, key, (n - 1) as nat, len);
    }
}

/// Of two nested prefixes that both cover the key, the shorter never
/// decides: the lookup answers with the value of a prefix at least as long
/// as the more specific of the two.
pub proof fn lemma_more_specific_wins<T>(
    table: Map<Seq<bool>, T>,
    key: u32,
    n: nat,
    shorter: nat,
    longer: nat,
)
    requires
        shorter < longer <= n,
        is_match(table, key, shorter),
        is_match(table, key, longer),
    ensures
        exists|len: nat|
            longer <= len <= n && #[trigger] is_match(table, key, len) && longest_match(table, key, n)
                == Some(table[key_bits(key, len)]),
{
    lemma_match_is_longest(table, key, n);
    match longest_match(table, key, n) {
        Some(v) => {
            let len = choose|len: nat|
                len <= n && #[trigger] is_match(table, key, len) && v == table[key_bits(key, len)]
                    && forall|l: nat| len < l <= n ==> !#[trigger] is_match(table, key, l);
            assert(longer <= len);
        },
        None => {
            assert(!is_match(table, key, longer));
        },
    }
}

/// A key that no prefix of the table covers finds nothing, and a key that
/// finds nothing is covered by no prefix of the table.
pub proof fn lemma_no_match<T>(table: Map<Seq<bool>, T>, key: u32, n: nat)
    ensures
        longest_match(table, key, n) is None <==> forall|len: nat|
            len <= n ==> !#[trigger] is_match(table, key, len),
{
    lemma_match_is_longest(table, key, n);
}

/// Adding or overwriting a prefix leaves every other prefix of the table
/// with the value it had.
pub proof fn lemma_insert_keeps_others<T>(
    table: Map<Seq<bool>, T>,
    prefix: Seq<bool>,
    value: T,
    other: Seq<bool>,
)
    requires
        other != prefix,
    ensures
        table.insert(prefix, value).dom().contains(other) == table.dom().contains(other),
        table.dom().contains(other) ==> table.insert(prefix, value)[other] == table[other],
{
}

/// Adding a prefix that does not cover the key leaves what the key finds
/// unchanged.
pub proof fn lemma_insert_elsewhere<T>(
    table: Map<Seq<bool>, T>,
    prefix: Seq<bool>,
    value: T,
    key: u32,
    n: nat,
)
    requires
        prefix.len() > n || prefix != key_bits(key, prefix.len()),
    ensures
        longest_match(table.insert(prefix, value), key, n) == longest_match(table, key, n),
    decreases n,
{
    assert(key_bits(key, n).len() == n);
    if n > 0 {
        lemma_insert_elsewhere(table, prefix, value, key, (n - 1) as nat);
    }
}

/// Adding a more general prefix leaves what a key finds unchanged wherever
/// a more specific prefix already covers the key.
pub proof fn lemma_insert_shadowed<T>(
    table: Map<Seq<bool>, T>,
    prefix: Seq<bool>,
    value: T,
    key: u32,
    n: nat,
    len: nat,
)
    requires
        prefix.len() < len <= n,
        is_match(table, key, len),
    ensures
        longest_match(table.insert(prefix, value), key, n) == longest_match(table, key, n),
    decreases n,
{
    assert(key_bits(key, n).len() == n);
    if n > len {
        lemma_insert_shadowed(table, prefix, value, key, (n - 1) as nat, len);
    }
}

/// The boundary of a prefix: with the prefix `net/len` alone in the table,
/// a key finds its value exactly when it agrees with `net` under the mask of
/// `len` leading ones.
pub proof fn lemma_single_prefix<T>(net: u32, len: u32, value: T, key: u32)
    requires
        len <= 32,
    ensures
        longest_match(Map::<Seq<bool>, T>::empty().insert(key_bits(net, len as nat), value), key, 32)
            == if key & prefix_mask(len) == net & prefix_mask(len) {
            Some(value)
        } else {
            None
        },
{
    let prefix = key_bits(net, len as nat);
    let table = Map::<Seq<bool>, T>::empty().insert(prefix, value);
    lemma_key_bits_masked(key, net, len);
    assert forall|l: nat| l <= 32 && l != len implies !#[trigger] is_match(table, key, l) by {
        assert(key_bits(key, l).len() == l);
    }
    if key & prefix_mask(len) == net & prefix_mask(len) {
        assert(is_match(table, key, len as nat));
        lemma_longest_wins(table, key, 32, len as nat);
    } else {
        lemma_no_match(table, key, 32);
    }
}

/// The boundary of a prefix within any table: a key that agrees with `net`
/// under the mask of `len` leading ones finds the value stored for
/// `net/len`, unless a longer prefix of the table covers it too.
pub proof fn lemma_prefix_boundary<T>(table: Map<Seq<bool>, T>, net: u32, len: u32, key: u32)
    requires
        len <= 32,
        table.dom().contains(key_bits(net, len as nat)),
        key & prefix_mask(len) == net & prefix_mask(len),
        forall|longer: nat| len < longer <= 32 ==> !#[trigger] is_match(table, key, longer),
    ensures
        longest_match(table, key, 32) == Some(table[key_bits(net, len as nat)]),
{
    lemma_key_bits_masked(key, net, len);
    lemma_longest_wins(table, key, 32, len as nat);
}

/// The boundary of a prefix from outside: a key that disagrees with `net`
/// under the mask of `len` leading ones finds the same with `net/len` in
/// the table as without it.
pub proof fn lemma_prefix_boundary_outside<T>(
    table: Map<Seq<bool>, T>,
    net: u32,
    len: u32,
    value: T,
    key: u32,
)
    requires
        len <= 32,
        key & prefix_mask(len) != net & prefix_mask(len),
    ensures
        longest_match(table.insert(key_bits(net, len as nat), value), key, 32) == longest_match(
            table,
            key,
            32,
        ),
{
    lemma_key_bits_masked(key, net, len);
    lemma_insert_elsewhere(table, key_bits(net, len as nat), value, key, 32);
}

} // verus!
