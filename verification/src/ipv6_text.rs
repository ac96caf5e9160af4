//! The text of an IPv6 address.
//!
//! Groups are written in lower case without leading zeros. The first of the
//! longest runs of two or more zero words is written as `::`. An address
//! that holds an IPv4 address behind the word `ffff` ends in a dotted quad.

use crate::ipv4::{ipv4_text, lemma_ipv4_text_bytes, push_ipv4, DOT};
use crate::ipv6::{
    all_groups, all_hex, group_values, hex_value, ipv6_of, is_group, is_hex_digit, lemma_full_form,
    lemma_short_form, list_fields, pack_words, pow16, quad_words, zero_words, COLON,
};
use crate::text::{is_digit, join, lemma_join_bytes};
use vstd::prelude::*;

verus! {

/// The `k`-th of the eight words of `addr`, the first being the most
/// significant.
pub open spec fn word(addr: u128, k: u32) -> u16
    recommends
        k < 8,
{
    ((addr >> (112 - 16 * k) as u32) & 0xffff) as u16
}

/// The eight words of `addr`.
pub open spec fn words(addr: u128) -> Seq<u16> {
    Seq::new(8, |k: int| word(addr, k as u32))
}

/// The lower-case hexadecimal digit that stands for `d`.
pub open spec fn hex_digit_byte(d: nat) -> u8
    recommends
        d < 16,
{
    if d < 10 {
        (0x30 + d) as u8
    } else {
        (0x57 + d) as u8
    }
}

/// The hexadecimal text of `n`, in lower case without leading zeros.
pub open spec fn hex_text(n: nat) -> Seq<u8>
    decreases n,
{
    if n < 16 {
        seq![hex_digit_byte(n)]
    } else {
        hex_text(n / 16).push(hex_digit_byte(n % 16))
    }
}

/// The groups that stand for the words `w`.
pub open spec fn group_texts(w: Seq<u16>) -> Seq<Seq<u8>> {
    Seq::new(w.len(), |k: int| hex_text(w[k] as nat))
}

/// The words `w` as groups with a colon between each two.
pub open spec fn list_text(w: Seq<u16>) -> Seq<u8> {
    join(group_texts(w), COLON)
}

/// The number of zero words in a row from position `i` on.
pub open spec fn zero_run(w: Seq<u16>, i: int) -> nat
    decreases w.len() - i,
{
    if 0 <= i < w.len() && w[i] == 0 {
        1 + zero_run(w, i + 1)
    } else {
        0
    }
}

/// Start and length of the longest run of zero words that starts before
/// position `n`; of several of that length, the first.
pub open spec fn longest_run(w: Seq<u16>, n: nat) -> (int, nat)
    decreases n,
{
    if n == 0 {
        (0, 0)
    } else {
        let best = longest_run(w, (n - 1) as nat);
        if zero_run(w, n - 1) > best.1 {
            (n - 1, zero_run(w, n - 1))
        } else {
            best
        }
    }
}

/// The address holds an IPv4 address in its last two words, behind five
/// zero words and the word `ffff`.
pub open spec fn is_mapped(addr: u128) -> bool {
    addr >> 32 == 0xffff
}

/// The text of `addr`.
pub open spec fn ipv6_text(addr: u128) -> Seq<u8> {
    let w = words(addr);
    let run = longest_run(w, 8);
    if is_mapped(addr) {
        seq![COLON, COLON] + hex_text(0xffff) + seq![COLON] + ipv4_text((addr & 0xffff_ffff) as u32)
    } else if run.1 >= 2 {
        list_text(w.take(run.0)) + seq![COLON, COLON] + list_text(w.skip(run.0 + run.1))
    } else {
        list_text(w)
    }
}

/// `b` may stand in the text of an address.
pub open spec fn is_address_byte(b: u8) -> bool {
    is_hex_digit(b) || b == COLON || b == DOT
}

/// The hexadecimal text of a number below `16` to the power of `k` has at
/// most `k` digits and denotes that number.
pub proof fn lemma_hex_text(n: nat, k: nat)
    requires
        k >= 1,
        n < pow16(k),
    ensures
        1 <= hex_text(n).len() <= k,
        all_hex(hex_text(n)),
        hex_value(hex_text(n)) == n,
    decreases n,
{
    let s = hex_text(n);
    if n < 16 {
        assert(s.drop_last() =~= Seq::<u8>::empty());
        assert(hex_value(s.drop_last()) == 0);
    } else {
        reveal_with_fuel(pow16, 2);
        let t = hex_text(n / 16);
        lemma_hex_text(n / 16, (k - 1) as nat);
        assert(s.drop_last() =~= t);
        assert forall|i: int| 0 <= i < s.len() implies is_hex_digit(#[trigger] s[i]) by {
            if i < t.len() {
                assert(s[i] == t[i]);
            }
        }
    }
}

proof fn lemma_group_text(w: u16)
    ensures
        is_group(hex_text(w as nat)),
        hex_value(hex_text(w as nat)) == w,
        forall|i: int| 0 <= i < hex_text(w as nat).len() ==> hex_text(w as nat)[i] != COLON,
{
    reveal_with_fuel(pow16, 5);
    lemma_hex_text(w as nat, 4);
    assert forall|i: int| 0 <= i < hex_text(w as nat).len() implies hex_text(w as nat)[i] != COLON by {
        assert(is_hex_digit(hex_text(w as nat)[i]));
    }
}

proof fn lemma_group_texts(w: Seq<u16>)
    ensures
        all_groups(group_texts(w)),
        group_values(group_texts(w)) == w,
        forall|i: int| 0 <= i < list_text(w).len() ==> is_address_byte(#[trigger] list_text(w)[i]),
        w.len() >= 2 ==> list_text(w).contains(COLON),
{
    let parts = group_texts(w);
    let s = list_text(w);
    assert forall|k: int| 0 <= k < parts.len() implies is_group(#[trigger] parts[k]) && hex_value(
        parts[k],
    ) == w[k] by {
        lemma_group_text(w[k]);
    }
    assert(group_values(parts) =~= w);
    assert forall|k: int, i: int|
        0 <= k < parts.len() && 0 <= i < parts[k].len() implies is_address_byte(
        #[trigger] parts[k][i],
    ) by {
        assert(is_group(parts[k]));
    }
    lemma_join_bytes(parts, COLON, |b: u8| is_address_byte(b));
    if w.len() >= 2 {
        let a = join(parts.drop_last(), COLON);
        assert(s =~= a + seq![COLON] + parts.last());
        assert(s[a.len() as int] == COLON);
    }
}

/// A run of zero words ends within the list, and holds zero words only.
pub proof fn lemma_zero_run(w: Seq<u16>, i: int)
    requires
        0 <= i <= w.len(),
    ensures
        i + zero_run(w, i) <= w.len(),
        forall|j: int| i <= j < i + zero_run(w, i) ==> #[trigger] w[j] == 0,
    decreases w.len() - i,
{
    if i < w.len() && w[i] == 0 {
        lemma_zero_run(w, i + 1);
    }
}

/// The longest run is a run of zero words: where its length is not zero,
/// it starts before `n` and is as long as the run from its start.
pub proof fn lemma_longest_run(w: Seq<u16>, n: nat)
    requires
        n <= w.len(),
    ensures
        longest_run(w, n).1 > 0 ==> 0 <= longest_run(w, n).0 < n && longest_run(w, n).1 == zero_run(
            w,
            longest_run(w, n).0,
        ),
        longest_run(w, n).1 == 0 ==> longest_run(w, n).0 == 0,
    decreases n,
{
    if n > 0 {
        lemma_longest_run(w, (n - 1) as nat);
    }
}

proof fn lemma_pack_words(addr: u128)
    ensures
        pack_words(words(addr)) == addr,
{
    assert((((addr >> 112u32) & 0xffff) as u16 as u128) << 112 | (((addr >> 96u32) & 0xffff) as u16 as u128)
        << 96 | (((addr >> 80u32) & 0xffff) as u16 as u128) << 80 | (((addr >> 64u32) & 0xffff) as u16 as u128)
        << 64 | (((addr >> 48u32) & 0xffff) as u16 as u128) << 48 | (((addr >> 32u32) & 0xffff) as u16 as u128)
        << 32 | (((addr >> 16u32) & 0xffff) as u16 as u128) << 16 | (((addr >> 0u32) & 0xffff) as u16 as u128)
        == addr) by (bit_vector);
}

proof fn lemma_pack_mapped(addr: u128)
    requires
        is_mapped(addr),
    ensures
        pack_words(
            Seq::<u16>::empty() + zero_words(5) + (seq![0xffffu16] + quad_words(
                (addr & 0xffff_ffff) as u32,
            )),
        ) == addr,
{
    let v4 = (addr & 0xffff_ffff) as u32;
    let hi = (v4 >> 16) as u16;
    let lo = (v4 & 0xffff) as u16;
    let all = Seq::<u16>::empty() + zero_words(5) + (seq![0xffffu16] + quad_words(v4));
    assert(all =~= seq![0u16, 0u16, 0u16, 0u16, 0u16, 0xffffu16, hi, lo]);
    assert((0u16 as u128) << 112 | (0u16 as u128) << 96 | (0u16 as u128) << 80 | (0u16 as u128) << 64 | (
    0u16 as u128) << 48 | (0xffffu16 as u128) << 32 | (hi as u128) << 16 | (lo as u128) == addr)
        by (bit_vector)
        requires
            addr >> 32 == 0xffff,
            v4 == (addr & 0xffff_ffff) as u32,
            hi == (v4 >> 16) as u16,
            lo == (v4 & 0xffff) as u16,
    ;
}

proof fn lemma_mapped_text(addr: u128)
    requires
        is_mapped(addr),
    ensures
        ipv6_of(ipv6_text(addr)) == Some(addr),
        ipv6_text(addr).contains(COLON),
        forall|i: int| 0 <= i < ipv6_text(addr).len() ==> is_address_byte(#[trigger] ipv6_text(addr)[i]),
{
    let s = ipv6_text(addr);
    let v4 = (addr & 0xffff_ffff) as u32;
    let group = hex_text(0xffff);
    let quad = ipv4_text(v4);
    let head = Seq::<Seq<u8>>::empty();
    let tail = seq![group];
    lemma_group_text(0xffff);
    lemma_ipv4_text_bytes(v4);
    assert(list_fields(tail, Some(v4)).drop_last() =~= tail);
    assert(join(tail, COLON) == group);
    assert(join(list_fields(tail, Some(v4)), COLON) =~= group + seq![COLON] + quad);
    assert(s =~= join(head, COLON) + seq![COLON, COLON] + join(list_fields(tail, Some(v4)), COLON));
    assert(group_values(head) =~= Seq::<u16>::empty());
    assert(group_values(tail) =~= seq![0xffffu16]);
    lemma_short_form(head, tail, Some(v4));
    lemma_pack_mapped(addr);
    assert(s[0] == COLON);
    assert forall|i: int| 0 <= i < s.len() implies is_address_byte(#[trigger] s[i]) by {
        if 2 <= i < 2 + group.len() {
            assert(s[i] == group[i - 2]);
            assert(is_hex_digit(group[i - 2]));
        } else if i > 2 + group.len() {
            assert(s[i] == quad[i - 3 - group.len()]);
            assert(is_digit(quad[i - 3 - group.len()]) || quad[i - 3 - group.len()] == DOT);
        }
    }
}

proof fn lemma_gap_text(addr: u128)
    requires
        !is_mapped(addr),
        longest_run(words(addr), 8).1 >= 2,
    ensures
        ipv6_of(ipv6_text(addr)) == Some(addr),
        ipv6_text(addr).contains(COLON),
        forall|i: int| 0 <= i < ipv6_text(addr).len() ==> is_address_byte(#[trigger] ipv6_text(addr)[i]),
{
    let w = words(addr);
    let run = longest_run(w, 8);
    let s = ipv6_text(addr);
    lemma_longest_run(w, 8);
    lemma_zero_run(w, run.0);
    let head = w.take(run.0);
    let tail = w.skip(run.0 + run.1);
    let hs = list_text(head);
    let ts = list_text(tail);
    lemma_group_texts(head);
    lemma_group_texts(tail);
    lemma_short_form(group_texts(head), group_texts(tail), None);
    assert(head + zero_words(run.1) + tail =~= w);
    lemma_pack_words(addr);
    assert(s[hs.len() as int] == COLON);
    assert forall|i: int| 0 <= i < s.len() implies is_address_byte(#[trigger] s[i]) by {
        if i < hs.len() {
            assert(s[i] == hs[i]);
        } else if i >= hs.len() + 2 {
            assert(s[i] == ts[i - hs.len() - 2]);
        }
    }
}

proof fn lemma_plain_text(addr: u128)
    requires
        !is_mapped(addr),
        longest_run(words(addr), 8).1 < 2,
    ensures
        ipv6_of(ipv6_text(addr)) == Some(addr),
        ipv6_text(addr).contains(COLON),
        forall|i: int| 0 <= i < ipv6_text(addr).len() ==> is_address_byte(#[trigger] ipv6_text(addr)[i]),
{
    let w = words(addr);
    lemma_group_texts(w);
    lemma_full_form(group_texts(w), None);
    lemma_pack_words(addr);
}

/// The text of an address is read back as that address. It is made of
/// hexadecimal digits, colons and dots, and holds at least one colon.
pub proof fn lemma_ipv6_text(addr: u128)
    ensures
        ipv6_of(ipv6_text(addr)) == Some(addr),
        ipv6_text(addr).contains(COLON),
        forall|i: int| 0 <= i < ipv6_text(addr).len() ==> is_address_byte(#[trigger] ipv6_text(addr)[i]),
{
    if is_mapped(addr) {
        lemma_mapped_text(addr);
    } else if longest_run(words(addr), 8).1 >= 2 {
        lemma_gap_text(addr);
    } else {
        lemma_plain_text(addr);
    }
}

/// Appends the hexadecimal text of `n` to `out`.
pub fn push_hex(out: &mut Vec<u8>, n: u16)
    ensures
        final(out)@ == old(out)@ + hex_text(n as nat),
    decreases n,
{
    if n >= 16 {
        push_hex(out, n / 16);
    }
    let d: u8 = (n % 16) as u8;
    out.push(
        if d < 10 {
            0x30 + d
        } else {
            0x57 + d
        },
    );
    proof {
        assert(out@ =~= old(out)@ + hex_text(n as nat));
    }
}

/// Appends the words of `w` from position `from` up to `to`, as groups with
/// a colon between each two.
fn push_list(out: &mut Vec<u8>, w: &Vec<u16>, from: usize, to: usize)
    requires
        from <= to <= w@.len(),
    ensures
        final(out)@ == old(out)@ + list_text(w@.subrange(from as int, to as int)),
{
    let mut k: usize = from;
    proof {
        assert(group_texts(w@.subrange(from as int, from as int)) =~= Seq::<Seq<u8>>::empty());
        assert(out@ =~= old(out)@ + list_text(w@.subrange(from as int, from as int)));
    }
    while k < to
        invariant
            from <= k <= to <= w@.len(),
            out@ == old(out)@ + list_text(w@.subrange(from as int, k as int)),
        decreases to - k,
    {
        let ghost done = group_texts(w@.subrange(from as int, k as int));
        let ghost next = group_texts(w@.subrange(from as int, k + 1));
        proof {
            assert(next.drop_last() =~= done);
            assert(next.last() == hex_text(w@[k as int] as nat));
        }
        if k > from {
            out.push(COLON);
        }
        push_hex(out, w[k]);
        proof {
            if k > from {
                assert(out@ =~= old(out)@ + (join(done, COLON) + seq![COLON] + next.last()));
            } else {
                assert(join(done, COLON) =~= Seq::<u8>::empty());
                assert(out@ =~= old(out)@ + next.last());
            }
        }
        k += 1;
    }
}

/// The eight words of `addr`.
pub fn split_words(addr: u128) -> (w: Vec<u16>)
    ensures
        w@ == words(addr),
{
    let mut w: Vec<u16> = Vec::new();
    let mut k: u32 = 0;
    while k < 8
        invariant
            k <= 8,
            w@.len() == k,
            forall|j: int| 0 <= j < k ==> #[trigger] w@[j] == word(addr, j as u32),
        decreases 8 - k,
    {
        let shift: u32 = 112 - 16 * k;
        assert((addr >> shift) & 0xffff < 0x1_0000) by (bit_vector);
        w.push(((addr >> shift) & 0xffff) as u16);
        k += 1;
    }
    proof {
        assert(w@ =~= words(addr));
    }
    w
}

/// Start and length of the first of the longest runs of zero words.
fn find_zero_run(w: &Vec<u16>) -> (run: (usize, usize))
    requires
        w@.len() == 8,
    ensures
        run.0 == longest_run(w@, 8).0,
        run.1 == longest_run(w@, 8).1,
{
    let mut start: usize = 0;
    let mut len: usize = 0;
    let mut i: usize = 0;
    while i < 8
        invariant
            i <= 8,
            w@.len() == 8,
            start == longest_run(w@, i as nat).0,
            len == longest_run(w@, i as nat).1,
            len <= 8,
        decreases 8 - i,
    {
        let mut j: usize = i;
        while j < 8 && w[j] == 0
            invariant
                i <= j <= 8,
                w@.len() == 8,
                zero_run(w@, i as int) == (j - i) + zero_run(w@, j as int),
            decreases 8 - j,
        {
            j += 1;
        }
        if j - i > len {
            start = i;
            len = j - i;
        }
        i += 1;
    }
    (start, len)
}

/// Appends the text of `addr` to `out`.
pub fn push_ipv6(out: &mut Vec<u8>, addr: u128)
    ensures
        final(out)@ == old(out)@ + ipv6_text(addr),
{
    if addr >> 32 == 0xffff {
        out.push(COLON);
        out.push(COLON);
        push_hex(out, 0xffff);
        out.push(COLON);
        assert(addr & 0xffff_ffff < 0x1_0000_0000) by (bit_vector);
        push_ipv4(out, (addr & 0xffff_ffff) as u32);
        proof {
            assert(out@ =~= old(out)@ + ipv6_text(addr));
        }
        return ;
    }
    let w = split_words(addr);
    let run = find_zero_run(&w);
    proof {
        lemma_longest_run(w@, 8);
        lemma_zero_run(w@, run.0 as int);
    }
    if run.1 >= 2 {
        push_list(out, &w, 0, run.0);
        out.push(COLON);
        out.push(COLON);
        push_list(out, &w, run.0 + run.1, 8);
        proof {
            assert(w@.subrange(0, run.0 as int) =~= w@.take(run.0 as int));
            assert(w@.subrange(run.0 + run.1, 8) =~= w@.skip(run.0 + run.1));
            assert(out@ =~= old(out)@ + ipv6_text(addr));
        }
    } else {
        push_list(out, &w, 0, 8);
        proof {
            assert(w@.subrange(0, 8) =~= w@);
        }
    }
}

} // verus!
