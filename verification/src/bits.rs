//! Bit-level view of 32-bit keys and masks.
//!
//! Positions count from the most significant bit, which is position 0: the
//! order in which the trie consumes a key.

use vstd::prelude::*;

verus! {

/// The bit of `x` at position `i`, position 0 being the most significant.
pub open spec fn bit_at(x: u32, i: u32) -> bool
    recommends
        i < 32,
{
    (x >> (31 - i) as u32) & 1 == 1
}

/// The first `n` bits of `key`, most significant first.
pub open spec fn key_bits(key: u32, n: nat) -> Seq<bool>
    recommends
        n <= 32,
{
    Seq::new(n, |i: int| bit_at(key, i as u32))
}

/// One past the position of the last set bit among the first `n` positions
/// of `mask`, or 0 if none of them is set.
pub open spec fn set_span(mask: u32, n: nat) -> nat
    recommends
        n <= 32,
    decreases n,
{
    if n == 0 {
        0
    } else if bit_at(mask, (n - 1) as u32) {
        n
    } else {
        set_span(mask, (n - 1) as nat)
    }
}

/// The number of leading bits that a mask makes significant: every position
/// up to and including its last set bit. For a mask of `l` leading ones this
/// is `l`.
pub open spec fn mask_len(mask: u32) -> nat {
    set_span(mask, 32)
}

/// The mask made of `len` leading ones.
pub open spec fn prefix_mask(len: u32) -> u32
    recommends
        len <= 32,
{
    if len == 0 {
        0
    } else {
        0xffff_ffffu32 << (32 - len) as u32
    }
}

/// Shifting a word left by one moves every bit one position towards the
/// front and clears the last position.
pub proof fn lemma_bit_at_shift(x: u32, i: u32)
    requires
        i < 32,
    ensures
        bit_at(x << 1u32, i) == (i < 31 && bit_at(x, (i + 1) as u32)),
{
    assert(((x << 1u32) >> (31 - i) as u32) & 1 == 1 <==> (i < 31 && (x >> (31 - (i + 1) as u32) as u32)
        & 1 == 1)) by (bit_vector)
        requires
            i < 32,
    ;
}

/// The leading bit of a word is the one that `0x8000_0000` selects.
pub proof fn lemma_top_bit(x: u32)
    ensures
        bit_at(x, 0) == (x & 0x8000_0000 != 0),
{
    assert((x >> 31u32) & 1 == 1 <==> x & 0x8000_0000 != 0) by (bit_vector);
}

/// The first `n` bits of a key are its leading bit followed by the first
/// `n - 1` bits of the key shifted left by one.
pub proof fn lemma_key_bits_step(key: u32, n: nat)
    requires
        1 <= n <= 32,
    ensures
        key_bits(key, n)[0] == bit_at(key, 0),
        key_bits(key, n).drop_first() == key_bits(key << 1u32, (n - 1) as nat),
        key_bits(key, n) == seq![bit_at(key, 0)] + key_bits(key << 1u32, (n - 1) as nat),
{
    let rest = key_bits(key << 1u32, (n - 1) as nat);
    assert forall|i: int| 0 <= i < n - 1 implies key_bits(key, n).drop_first()[i] == rest[i] by {
        lemma_bit_at_shift(key, i as u32);
    }
    assert(key_bits(key, n).drop_first() =~= rest);
    assert(key_bits(key, n) =~= seq![bit_at(key, 0)] + rest);
}

proof fn lemma_set_span_bound(mask: u32, n: nat)
    ensures
        set_span(mask, n) <= n,
    decreases n,
{
    if n > 0 {
        lemma_set_span_bound(mask, (n - 1) as nat);
    }
}

proof fn lemma_set_span_shift(mask: u32, n: nat)
    requires
        n <= 31,
    ensures
        set_span(mask, n + 1) == if set_span(mask << 1u32, n) > 0 {
            set_span(mask << 1u32, n) + 1
        } else if bit_at(mask, 0) {
            1nat
        } else {
            0nat
        },
    decreases n,
{
    let shifted = mask << 1u32;
    if n == 0 {
        assert(set_span(mask, 0) == 0);
        assert(set_span(shifted, 0) == 0);
        assert(set_span(mask, 1) == if bit_at(mask, 0) {
            1nat
        } else {
            0nat
        });
    } else {
        let i = (n - 1) as u32;
        lemma_bit_at_shift(mask, i);
        lemma_set_span_shift(mask, (n - 1) as nat);
        assert(bit_at(shifted, i) == bit_at(mask, n as u32));
        assert(set_span(shifted, n) == if bit_at(shifted, i) {
            n
        } else {
            set_span(shifted, (n - 1) as nat)
        });
        assert(set_span(mask, n + 1) == if bit_at(mask, n as u32) {
            n + 1
        } else {
            set_span(mask, n)
        });
    }
}

proof fn lemma_set_span_none(x: u32, n: nat)
    requires
        1 <= n <= 32,
        set_span(x, n) == 0,
    ensures
        x >> (32 - n) as u32 == 0,
    decreases n,
{
    let s = (32 - n) as u32;
    if n == 1 {
        assert((x >> 31u32) & 1 != 1 ==> x >> 31u32 == 0) by (bit_vector);
    } else {
        lemma_set_span_none(x, (n - 1) as nat);
        assert(x >> (s + 1) as u32 == 0 && (x >> (31 - (31 - s) as u32) as u32) & 1 != 1 ==> x >> s == 0)
            by (bit_vector)
            requires
                s < 31,
        ;
    }
}

/// The empty mask makes no bit significant.
pub proof fn lemma_mask_len_zero(mask: u32)
    ensures
        mask_len(mask) <= 32,
        mask_len(mask) == 0 <==> mask == 0,
{
    lemma_set_span_bound(mask, 32);
    if mask_len(mask) == 0 {
        lemma_set_span_none(mask, 32);
        assert(mask >> 0u32 == 0 ==> mask == 0) by (bit_vector);
    }
    if mask == 0 {
        lemma_set_span_clear(mask, 32);
    }
}

proof fn lemma_set_span_clear(mask: u32, n: nat)
    requires
        n <= 32,
        mask == 0,
    ensures
        set_span(mask, n) == 0,
    decreases n,
{
    if n > 0 {
        let i = (n - 1) as u32;
        assert(((0u32 >> (31 - i) as u32) & 1) != 1) by (bit_vector)
            requires
                i < 32,
        ;
        lemma_set_span_clear(mask, (n - 1) as nat);
    }
}

/// A mask that is not empty makes one more bit significant than the same
/// mask shifted left by one: the descent consumes one bit of it per level.
pub proof fn lemma_mask_len_step(mask: u32)
    requires
        mask != 0,
    ensures
        mask_len(mask) == mask_len(mask << 1u32) + 1,
{
    lemma_set_span_shift(mask, 31);
    lemma_bit_at_shift(mask, 31);
    assert(set_span(mask << 1u32, 32) == set_span(mask << 1u32, 31));
    if set_span(mask << 1u32, 31) == 0 {
        lemma_mask_len_zero(mask);
    }
}

proof fn lemma_prefix_mask_bits(len: u32, i: u32)
    requires
        len <= 32,
        i < 32,
    ensures
        bit_at(prefix_mask(len), i) == (i < len),
{
    if len == 0 {
        assert(((0u32 >> (31 - i) as u32) & 1) != 1) by (bit_vector)
            requires
                i < 32,
        ;
    } else {
        assert(((0xffff_ffffu32 << (32 - len) as u32) >> (31 - i) as u32) & 1 == 1 <==> i < len)
            by (bit_vector)
            requires
                1 <= len <= 32,
                i < 32,
        ;
    }
}

proof fn lemma_prefix_mask_span(len: u32, n: nat)
    requires
        len <= n <= 32,
    ensures
        set_span(prefix_mask(len), n) == len,
    decreases n,
{
    if n > 0 {
        lemma_prefix_mask_bits(len, (n - 1) as u32);
        if n > len {
            lemma_prefix_mask_span(len, (n - 1) as nat);
        }
    }
}

/// A mask of `len` leading ones makes exactly `len` bits significant.
pub proof fn lemma_prefix_mask_len(len: u32)
    requires
        len <= 32,
    ensures
        mask_len(prefix_mask(len)) == len,
{
    lemma_prefix_mask_span(len, 32);
}

/// Two keys have the same first `len` bits exactly when they are equal under
/// the mask of `len` leading ones.
pub proof fn lemma_key_bits_masked(a: u32, b: u32, len: u32)
    requires
        len <= 32,
    ensures
        key_bits(a, len as nat) == key_bits(b, len as nat) <==> a & prefix_mask(len) == b & prefix_mask(
            len,
        ),
    decreases len,
{
    if len == 0 {
        assert(key_bits(a, 0) =~= key_bits(b, 0));
        assert(a & 0 == b & 0) by (bit_vector);
    } else {
        let k = (len - 1) as u32;
        lemma_key_bits_masked(a, b, k);
        let m0 = prefix_mask(k);
        let m1 = prefix_mask(len);
        assert(m1 == m0 | (0x8000_0000u32 >> k)) by (bit_vector)
            requires
                k < 32,
                m0 == if k == 0 {
                    0u32
                } else {
                    0xffff_ffffu32 << (32 - k) as u32
                },
                m1 == 0xffff_ffffu32 << (32 - (k + 1)) as u32,
        ;
        assert(m0 & (0x8000_0000u32 >> k) == 0) by (bit_vector)
            requires
                k < 32,
                m0 == if k == 0 {
                    0u32
                } else {
                    0xffff_ffffu32 << (32 - k) as u32
                },
        ;
        assert((a & m1 == b & m1) <==> (a & m0 == b & m0 && ((a >> (31 - k) as u32) & 1 == 1 <==> (b >> (31
            - k) as u32) & 1 == 1))) by (bit_vector)
            requires
                k < 32,
                m1 == m0 | (0x8000_0000u32 >> k),
                m0 & (0x8000_0000u32 >> k) == 0,
        ;
        if key_bits(a, len as nat) == key_bits(b, len as nat) {
            assert forall|i: int| 0 <= i < k implies key_bits(a, k as nat)[i] == key_bits(b, k as nat)[i] by {
                assert(key_bits(a, len as nat)[i] == key_bits(b, len as nat)[i]);
            }
            assert(key_bits(a, k as nat) =~= key_bits(b, k as nat));
            assert(key_bits(a, len as nat)[k as int] == key_bits(b, len as nat)[k as int]);
        }
        if a & m1 == b & m1 {
            assert(key_bits(a, len as nat) =~= key_bits(b, len as nat)) by {
                assert forall|i: int| 0 <= i < len implies key_bits(a, len as nat)[i] == key_bits(
                    b,
                    len as nat,
                )[i] by {
                    if i < k {
                        assert(key_bits(a, k as nat)[i] == key_bits(b, k as nat)[i]);
                    }
                }
            }
        }
    }
}

} // verus!
