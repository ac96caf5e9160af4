//! IPv6 addresses in colon-hexadecimal notation.
//!
//! An address is eight words of 16 bits. Each is written as a group of one
//! to four hexadecimal digits, with a colon between each two groups. One
//! run of zero words may be left out and written as `::`, and the last two
//! words may be written as a dotted quad.

use crate::ipv4::{ipv4_of, ipv4_text, lemma_ipv4_of, lemma_ipv4_text_bytes, parse_ipv4, DOT};
use crate::text::{
    fields, free_of, is_digit, join, lemma_fields_join, lemma_join_fields, lemma_join_spaced,
    none_empty, split, well_spaced,
};
use vstd::prelude::*;
use vstd::slice::slice_subrange;

verus! {

/// The colon between two groups of an address.
pub const COLON: u8 = 0x3a;

/// `b` is a hexadecimal digit, in either case.
pub open spec fn is_hex_digit(b: u8) -> bool {
    is_digit(b) || 0x61 <= b <= 0x66 || 0x41 <= b <= 0x46
}

/// The number that the hexadecimal digit `b` stands for.
pub open spec fn hex_digit_value(b: u8) -> nat
    recommends
        is_hex_digit(b),
{
    if is_digit(b) {
        (b - 0x30) as nat
    } else if 0x61 <= b <= 0x66 {
        (b - 0x61 + 10) as nat
    } else {
        (b - 0x41 + 10) as nat
    }
}

/// Every byte of `s` is a hexadecimal digit.
pub open spec fn all_hex(s: Seq<u8>) -> bool {
    forall|i: int| 0 <= i < s.len() ==> is_hex_digit(#[trigger] s[i])
}

/// The number that a string of hexadecimal digits denotes.
pub open spec fn hex_value(s: Seq<u8>) -> nat
    decreases s.len(),
{
    if s.len() == 0 {
        0
    } else {
        hex_value(s.drop_last()) * 16 + hex_digit_value(s.last())
    }
}

/// `s` is a group: one to four hexadecimal digits.
pub open spec fn is_group(s: Seq<u8>) -> bool {
    1 <= s.len() <= 4 && all_hex(s)
}

/// The word that a field denotes as a group, if it is one.
pub open spec fn group_of(field: Seq<u8>) -> Option<u16> {
    if is_group(field) {
        Some(hex_value(field) as u16)
    } else {
        None
    }
}

/// Every field of `f` is a group.
pub open spec fn all_groups(f: Seq<Seq<u8>>) -> bool {
    forall|k: int| 0 <= k < f.len() ==> is_group(#[trigger] f[k])
}

/// The words that the groups `f` denote, in order.
pub open spec fn group_values(f: Seq<Seq<u8>>) -> Seq<u16> {
    Seq::new(f.len(), |k: int| hex_value(f[k]) as u16)
}

/// The two words that hold an IPv4 address, the upper half first.
pub open spec fn quad_words(v4: u32) -> Seq<u16> {
    seq![(v4 >> 16) as u16, (v4 & 0xffff) as u16]
}

/// The words that a list of groups denotes. The empty text is the empty
/// list. Where `quad` holds, the last field of the list may be a dotted
/// quad, which stands for two words.
pub open spec fn words_of(part: Seq<u8>, quad: bool) -> Option<Seq<u16>> {
    let f = fields(part, COLON);
    if part.len() == 0 {
        Some(Seq::<u16>::empty())
    } else if all_groups(f) {
        Some(group_values(f))
    } else if quad && all_groups(f.drop_last()) && ipv4_of(f.last()) is Some {
        Some(group_values(f.drop_last()) + quad_words(ipv4_of(f.last())->0))
    } else {
        None
    }
}

/// The position of the first `::` in `s`, or the length of `s` if it holds
/// none.
pub open spec fn gap_index(s: Seq<u8>) -> int
    decreases s.len(),
{
    if s.len() < 2 {
        s.len() as int
    } else if s[0] == COLON && s[1] == COLON {
        0
    } else {
        1 + gap_index(s.drop_first())
    }
}

/// `n` zero words.
pub open spec fn zero_words(n: nat) -> Seq<u16> {
    Seq::new(n, |k: int| 0u16)
}

/// The address made of eight words, the first being the most significant.
pub open spec fn pack_words(w: Seq<u16>) -> u128
    recommends
        w.len() == 8,
{
    (w[0] as u128) << 112 | (w[1] as u128) << 96 | (w[2] as u128) << 80 | (w[3] as u128) << 64 | (
    w[4] as u128) << 48 | (w[5] as u128) << 32 | (w[6] as u128) << 16 | (w[7] as u128)
}

/// The address that `s` denotes in colon-hexadecimal notation, if it
/// denotes one. Without `::` the text lists all eight words. With `::` it
/// lists the words before and after the run that is left out, which holds
/// at least one word; a dotted quad may stand only at the very end.
pub open spec fn ipv6_of(s: Seq<u8>) -> Option<u128> {
    let g = gap_index(s);
    if g >= s.len() {
        match words_of(s, true) {
            Some(w) => if w.len() == 8 {
                Some(pack_words(w))
            } else {
                None
            },
            None => None,
        }
    } else {
        match (words_of(s.take(g), false), words_of(s.skip(g + 2), true)) {
            (Some(head), Some(tail)) => if head.len() + tail.len() <= 7 {
                Some(pack_words(head + zero_words((8 - head.len() - tail.len()) as nat) + tail))
            } else {
                None
            },
            _ => None,
        }
    }
}

/// `16` to the power of `n`.
pub open spec fn pow16(n: nat) -> nat
    decreases n,
{
    if n == 0 {
        1
    } else {
        16 * pow16((n - 1) as nat)
    }
}

/// A string of `n` hexadecimal digits denotes a number below `16` to the
/// power of `n`.
pub proof fn lemma_hex_value_bound(s: Seq<u8>)
    requires
        all_hex(s),
    ensures
        hex_value(s) < pow16(s.len()),
    decreases s.len(),
{
    if s.len() > 0 {
        assert(is_hex_digit(s.last()));
        assert forall|i: int| 0 <= i < s.drop_last().len() implies is_hex_digit(
            #[trigger] s.drop_last()[i],
        ) by {
            assert(s.drop_last()[i] == s[i]);
        }
        lemma_hex_value_bound(s.drop_last());
    }
}

/// `gap_index` is the one position before which no `::` starts and at which
/// `::` starts or the string ends.
pub proof fn lemma_gap_index(s: Seq<u8>, j: int)
    requires
        0 <= j <= s.len(),
        forall|k: int| 0 <= k < j && k + 1 < s.len() ==> !(s[k] == COLON && #[trigger] s[k + 1] == COLON),
        j == s.len() || (j + 1 < s.len() && s[j] == COLON && s[j + 1] == COLON),
    ensures
        gap_index(s) == j,
    decreases j,
{
    if s.len() >= 2 && j > 0 {
        let t = s.drop_first();
        assert(!(s[0] == COLON && s[0int + 1] == COLON));
        assert forall|k: int| 0 <= k < j - 1 && k + 1 < t.len() implies !(t[k] == COLON && #[trigger] t[k
            + 1] == COLON) by {
            assert(t[k] == s[k + 1]);
            assert(t[k + 1] == s[(k + 1) + 1]);
        }
        lemma_gap_index(t, j - 1);
    }
}

/// Where `gap_index` points, unless the string ends there, two colons
/// stand.
pub proof fn lemma_gap_found(s: Seq<u8>)
    ensures
        0 <= gap_index(s) <= s.len(),
        gap_index(s) < s.len() ==> gap_index(s) + 2 <= s.len() && s[gap_index(s)] == COLON && s[gap_index(
            s,
        ) + 1] == COLON,
    decreases s.len(),
{
    if s.len() >= 2 && !(s[0] == COLON && s[1] == COLON) {
        let t = s.drop_first();
        lemma_gap_found(t);
        if gap_index(t) < t.len() {
            assert(t[gap_index(t)] == s[gap_index(t) + 1]);
            assert(t[gap_index(t) + 1] == s[gap_index(t) + 2]);
        }
    }
}

/// Between two texts of which the first is empty or well spaced, `::` is
/// the first pair of colons.
pub proof fn lemma_gap_between(head: Seq<u8>, tail: Seq<u8>)
    requires
        head.len() == 0 || well_spaced(head, COLON),
    ensures
        gap_index(head + seq![COLON, COLON] + tail) == head.len(),
        (head + seq![COLON, COLON] + tail).take(head.len() as int) == head,
        (head + seq![COLON, COLON] + tail).skip(head.len() as int + 2) == tail,
{
    let s = head + seq![COLON, COLON] + tail;
    let n = head.len() as int;
    assert forall|k: int| 0 <= k < n && k + 1 < s.len() implies !(s[k] == COLON && #[trigger] s[k + 1]
        == COLON) by {
        if k + 1 < n {
            assert(s[k] == head[k] && s[k + 1] == head[k + 1]);
        } else {
            assert(s[k] == head.last());
        }
    }
    assert(s[n] == COLON && s[n + 1] == COLON);
    lemma_gap_index(s, n);
    assert(s.take(n) =~= head);
    assert(s.skip(n + 2) =~= tail);
}

/// The fields of a list: its groups, and behind them the dotted quad if
/// the list ends in one.
pub open spec fn list_fields(groups: Seq<Seq<u8>>, quad: Option<u32>) -> Seq<Seq<u8>> {
    match quad {
        None => groups,
        Some(v4) => groups.push(ipv4_text(v4)),
    }
}

/// The words of a list: those of its groups, and behind them the two words
/// of the dotted quad if the list ends in one.
pub open spec fn list_words(groups: Seq<Seq<u8>>, quad: Option<u32>) -> Seq<u16> {
    match quad {
        None => group_values(groups),
        Some(v4) => group_values(groups) + quad_words(v4),
    }
}

/// `s` is a way to write `addr`: either a list of eight words, or two lists
/// of seven words or less together with `::` between them, which stands
/// for the zero words that are left out. Only a list at the very end may
/// end in a dotted quad.
pub open spec fn written_as(s: Seq<u8>, addr: u128) -> bool {
    ||| exists|groups: Seq<Seq<u8>>, quad: Option<u32>|
        {
            &&& all_groups(groups)
            &&& list_words(groups, quad).len() == 8
            &&& s == join(#[trigger] list_fields(groups, quad), COLON)
            &&& addr == pack_words(list_words(groups, quad))
        }
    ||| exists|head: Seq<Seq<u8>>, tail: Seq<Seq<u8>>, quad: Option<u32>|
        #![trigger join(head, COLON), list_fields(tail, quad)]
        {
            &&& all_groups(head)
            &&& all_groups(tail)
            &&& head.len() + list_words(tail, quad).len() <= 7
            &&& s == join(head, COLON) + seq![COLON, COLON] + join(list_fields(tail, quad), COLON)
            &&& addr == pack_words(
                group_values(head) + zero_words(
                    (8 - head.len() - list_words(tail, quad).len()) as nat,
                ) + list_words(tail, quad),
            )
        }
}

/// A list of groups, with or without a dotted quad at its end, is read as
/// the words that it denotes. The text of the empty list is empty; any
/// other is well spaced.
pub proof fn lemma_list_read(groups: Seq<Seq<u8>>, quad: Option<u32>)
    requires
        all_groups(groups),
    ensures
        words_of(join(list_fields(groups, quad), COLON), true) == Some(list_words(groups, quad)),
        quad is None ==> words_of(join(groups, COLON), false) == Some(group_values(groups)),
        list_fields(groups, quad).len() == 0 ==> join(list_fields(groups, quad), COLON).len() == 0,
        list_fields(groups, quad).len() >= 1 ==> well_spaced(
            join(list_fields(groups, quad), COLON),
            COLON,
        ),
{
    let f = list_fields(groups, quad);
    let s = join(f, COLON);
    if f.len() >= 1 {
        assert forall|k: int, i: int| 0 <= k < f.len() && 0 <= i < f[k].len() implies #[trigger] f[k][i]
            != COLON by {
            if k < groups.len() {
                assert(is_group(groups[k]));
                assert(is_hex_digit(groups[k][i]));
            } else {
                lemma_ipv4_text_bytes(quad->0);
                assert(is_digit(ipv4_text(quad->0)[i]) || ipv4_text(quad->0)[i] == DOT);
            }
        }
        assert(free_of(f, COLON));
        assert forall|k: int| 0 <= k < f.len() implies (#[trigger] f[k]).len() >= 1 by {
            if k < groups.len() {
                assert(is_group(groups[k]));
            } else {
                lemma_ipv4_text_bytes(quad->0);
            }
        }
        assert(none_empty(f));
        lemma_join_fields(f, COLON);
        lemma_join_spaced(f, COLON);
        match quad {
            None => {},
            Some(v4) => {
                let text = ipv4_text(v4);
                lemma_ipv4_text_bytes(v4);
                lemma_ipv4_of(text, v4);
                let dot = choose|i: int| 0 <= i < text.len() && text[i] == DOT;
                assert(!is_hex_digit(text[dot]));
                assert(!is_group(text));
                assert(f[f.len() - 1] == text);
                assert(!all_groups(f));
                assert(f.drop_last() =~= groups);
            },
        }
    }
}

/// Eight words written in full are read as the address that they make.
pub proof fn lemma_full_form(groups: Seq<Seq<u8>>, quad: Option<u32>)
    requires
        all_groups(groups),
        list_words(groups, quad).len() == 8,
    ensures
        ipv6_of(join(list_fields(groups, quad), COLON)) == Some(pack_words(list_words(groups, quad))),
{
    let s = join(list_fields(groups, quad), COLON);
    lemma_list_read(groups, quad);
    lemma_gap_index(s, s.len() as int);
}

/// Two lists with `::` between them are read as the address made of the
/// words of the first, as many zero words as are missing, and the words of
/// the second.
pub proof fn lemma_short_form(head: Seq<Seq<u8>>, tail: Seq<Seq<u8>>, quad: Option<u32>)
    requires
        all_groups(head),
        all_groups(tail),
        head.len() + list_words(tail, quad).len() <= 7,
    ensures
        ipv6_of(join(head, COLON) + seq![COLON, COLON] + join(list_fields(tail, quad), COLON)) == Some(
            pack_words(
                group_values(head) + zero_words(
                    (8 - head.len() - list_words(tail, quad).len()) as nat,
                ) + list_words(tail, quad),
            ),
        ),
{
    lemma_list_read(head, None);
    lemma_list_read(tail, quad);
    lemma_gap_between(join(head, COLON), join(list_fields(tail, quad), COLON));
}

proof fn lemma_list_written(part: Seq<u8>, quad: bool) -> (list: (Seq<Seq<u8>>, Option<u32>))
    requires
        words_of(part, quad) is Some,
    ensures
        all_groups(list.0),
        !quad ==> list.1 is None,
        part == join(list_fields(list.0, list.1), COLON),
        words_of(part, quad) == Some(list_words(list.0, list.1)),
{
    let f = fields(part, COLON);
    if part.len() == 0 {
        let groups = Seq::<Seq<u8>>::empty();
        assert(group_values(groups) =~= Seq::<u16>::empty());
        (groups, None)
    } else if all_groups(f) {
        lemma_fields_join(part, COLON);
        (f, None)
    } else {
        let v4 = ipv4_of(f.last())->0;
        lemma_fields_join(part, COLON);
        lemma_ipv4_of(f.last(), v4);
        assert(f.drop_last().push(f.last()) =~= f);
        (f.drop_last(), Some(v4))
    }
}

/// A text is read as an address exactly when it is a way to write that
/// address.
pub proof fn lemma_ipv6_of(s: Seq<u8>, addr: u128)
    ensures
        ipv6_of(s) == Some(addr) <==> written_as(s, addr),
{
    if ipv6_of(s) == Some(addr) {
        let g = gap_index(s);
        lemma_gap_found(s);
        if g >= s.len() {
            let list = lemma_list_written(s, true);
            assert(s == join(list_fields(list.0, list.1), COLON));
        } else {
            let head = lemma_list_written(s.take(g), false);
            let tail = lemma_list_written(s.skip(g + 2), true);
            assert(s =~= s.take(g) + seq![COLON, COLON] + s.skip(g + 2));
            assert(s == join(head.0, COLON) + seq![COLON, COLON] + join(
                list_fields(tail.0, tail.1),
                COLON,
            ));
        }
    }
    if written_as(s, addr) {
        if exists|groups: Seq<Seq<u8>>, quad: Option<u32>|
            {
                &&& all_groups(groups)
                &&& list_words(groups, quad).len() == 8
                &&& s == join(#[trigger] list_fields(groups, quad), COLON)
                &&& addr == pack_words(list_words(groups, quad))
            } {
            let (groups, quad) = choose|groups: Seq<Seq<u8>>, quad: Option<u32>|
                {
                    &&& all_groups(groups)
                    &&& list_words(groups, quad).len() == 8
                    &&& s == join(#[trigger] list_fields(groups, quad), COLON)
                    &&& addr == pack_words(list_words(groups, quad))
                };
            lemma_full_form(groups, quad);
        } else {
            let (head, tail, quad) = choose|head: Seq<Seq<u8>>, tail: Seq<Seq<u8>>, quad: Option<u32>|
                #![trigger join(head, COLON), list_fields(tail, quad)]
                {
                    &&& all_groups(head)
                    &&& all_groups(tail)
                    &&& head.len() + list_words(tail, quad).len() <= 7
                    &&& s == join(head, COLON) + seq![COLON, COLON] + join(
                        list_fields(tail, quad),
                        COLON,
                    )
                    &&& addr == pack_words(
                        group_values(head) + zero_words(
                            (8 - head.len() - list_words(tail, quad).len()) as nat,
                        ) + list_words(tail, quad),
                    )
                };
            lemma_short_form(head, tail, quad);
        }
    }
}

/// The position of the first `::` in `s`, or the length of `s` if it holds
/// none.
pub fn find_gap(s: &[u8]) -> (j: usize)
    ensures
        j == gap_index(s@),
        j <= s@.len(),
        j < s@.len() ==> j + 2 <= s@.len(),
{
    let mut j: usize = 0;
    while j < s.len()
        invariant
            j <= s.len(),
            forall|k: int|
                0 <= k < j && k + 1 < s@.len() ==> !(s@[k] == COLON && #[trigger] s@[k + 1] == COLON),
        decreases s.len() - j,
    {
        if j + 1 < s.len() && s[j] == COLON && s[j + 1] == COLON {
            proof {
                lemma_gap_index(s@, j as int);
            }
            return j;
        }
        j += 1;
    }
    proof {
        lemma_gap_index(s@, j as int);
    }
    j
}

/// The number that the hexadecimal digit `b` stands for, if it is one.
pub fn hex_digit(b: u8) -> (value: Option<u8>)
    ensures
        value is Some <==> is_hex_digit(b),
        value matches Some(v) ==> v == hex_digit_value(b),
{
    if 0x30 <= b && b <= 0x39 {
        Some(b - 0x30)
    } else if 0x61 <= b && b <= 0x66 {
        Some(b - 0x61 + 10)
    } else if 0x41 <= b && b <= 0x46 {
        Some(b - 0x41 + 10)
    } else {
        None
    }
}

/// The word that `field` denotes as a group, if it is one.
pub fn parse_group(field: &[u8]) -> (word: Option<u16>)
    ensures
        word == group_of(field@),
{
    if field.len() == 0 || field.len() > 4 {
        return None;
    }
    let mut acc: u32 = 0;
    let mut i: usize = 0;
    while i < field.len()
        invariant
            i <= field.len() <= 4,
            all_hex(field@.take(i as int)),
            acc == hex_value(field@.take(i as int)),
        decreases field.len() - i,
    {
        proof {
            lemma_hex_value_bound(field@.take(i as int));
            reveal_with_fuel(pow16, 5);
            assert(field@.take(i + 1).drop_last() =~= field@.take(i as int));
        }
        match hex_digit(field[i]) {
            Some(d) => {
                acc = acc * 16 + d as u32;
            },
            None => {
                return None;
            },
        }
        proof {
            assert forall|k: int| 0 <= k < i + 1 implies is_hex_digit(#[trigger] field@.take(i + 1)[k]) by {
                if k < i {
                    assert(field@.take(i as int)[k] == field@[k]);
                }
            }
        }
        i += 1;
    }
    proof {
        assert(field@.take(i as int) =~= field@);
        lemma_hex_value_bound(field@);
        reveal_with_fuel(pow16, 5);
    }
    Some(acc as u16)
}

/// The words that `part` denotes as a list of groups, if it denotes any.
pub fn parse_words(part: &[u8], quad: bool) -> (words: Option<Vec<u16>>)
    ensures
        words is Some <==> words_of(part@, quad) is Some,
        words matches Some(w) ==> words_of(part@, quad) == Some(w@),
{
    let mut out: Vec<u16> = Vec::new();
    if part.len() == 0 {
        return Some(out);
    }
    let parts = split(part, COLON);
    let ghost f = fields(part@, COLON);
    let n = parts.len();
    let mut i: usize = 0;
    while i < n
        invariant
            i <= n,
            n == parts@.len(),
            n == f.len(),
            part@.len() > 0,
            f == fields(part@, COLON),
            forall|k: int| 0 <= k < n ==> (#[trigger] parts@[k])@ == f[k],
            out@.len() == i,
            forall|k: int| 0 <= k < i ==> is_group(#[trigger] f[k]),
            forall|k: int| 0 <= k < i ==> #[trigger] out@[k] == hex_value(f[k]) as u16,
        decreases n - i,
    {
        match parse_group(parts[i]) {
            Some(w) => {
                out.push(w);
            },
            None => {
                proof {
                    assert(!is_group(f[i as int]));
                    assert(!all_groups(f));
                    if i == n - 1 {
                        assert(f.last() == f[i as int]);
                        assert forall|k: int| 0 <= k < f.drop_last().len() implies is_group(
                            #[trigger] f.drop_last()[k],
                        ) by {
                            assert(f.drop_last()[k] == f[k]);
                        }
                    } else {
                        assert(f.drop_last()[i as int] == f[i as int]);
                        assert(!all_groups(f.drop_last()));
                    }
                }
                if quad && i == n - 1 {
                    match parse_ipv4(parts[i]) {
                        Some(v4) => {
                            assert(v4 >> 16u32 < 0x1_0000 && v4 & 0xffff < 0x1_0000) by (bit_vector);
                            out.push((v4 >> 16) as u16);
                            out.push((v4 & 0xffff) as u16);
                            proof {
                                assert(out@ =~= group_values(f.drop_last()) + quad_words(v4));
                            }
                            return Some(out);
                        },
                        None => {
                            return None;
                        },
                    }
                }
                return None;
            },
        }
        i += 1;
    }
    proof {
        assert(out@ =~= group_values(f));
    }
    Some(out)
}

/// The address that `s` denotes in colon-hexadecimal notation, if it
/// denotes one.
pub fn parse_ipv6(s: &[u8]) -> (addr: Option<u128>)
    ensures
        addr == ipv6_of(s@),
{
    let g = find_gap(s);
    let mut all: Vec<u16> = Vec::new();
    if g >= s.len() {
        match parse_words(s, true) {
            Some(w) => {
                if w.len() != 8 {
                    return None;
                }
                all = w;
            },
            None => {
                return None;
            },
        }
    } else {
        let head = match parse_words(slice_subrange(s, 0, g), false) {
            Some(w) => w,
            None => {
                return None;
            },
        };
        let tail = match parse_words(slice_subrange(s, g + 2, s.len()), true) {
            Some(w) => w,
            None => {
                return None;
            },
        };
        if head.len() > 7 || tail.len() > 7 - head.len() {
            return None;
        }
        let missing = 8 - head.len() - tail.len();
        let mut i: usize = 0;
        while i < head.len()
            invariant
                i <= head.len(),
                all@ == head@.take(i as int),
            decreases head.len() - i,
        {
            all.push(head[i]);
            proof {
                assert(all@ =~= head@.take(i + 1));
            }
            i += 1;
        }
        let mut i: usize = 0;
        while i < missing
            invariant
                i <= missing,
                all@ == head@ + zero_words(i as nat),
            decreases missing - i,
        {
            proof {
                assert(head@.take(head@.len() as int) =~= head@);
            }
            all.push(0);
            proof {
                assert(all@ =~= head@ + zero_words((i + 1) as nat));
            }
            i += 1;
        }
        let mut i: usize = 0;
        while i < tail.len()
            invariant
                i <= tail.len(),
                all@ == head@ + zero_words(missing as nat) + tail@.take(i as int),
            decreases tail.len() - i,
        {
            all.push(tail[i]);
            proof {
                assert(all@ =~= head@ + zero_words(missing as nat) + tail@.take(i + 1));
            }
            i += 1;
        }
        proof {
            assert(head@.take(head@.len() as int) =~= head@);
            assert(tail@.take(tail@.len() as int) =~= tail@);
            assert(s@.subrange(0, g as int) =~= s@.take(g as int));
            assert(s@.subrange(g + 2, s@.len() as int) =~= s@.skip(g + 2));
        }
    }
    Some(
        (all[0] as u128) << 112 | (all[1] as u128) << 96 | (all[2] as u128) << 80 | (all[3] as u128)
            << 64 | (all[4] as u128) << 48 | (all[5] as u128) << 32 | (all[6] as u128) << 16 | (
        all[7] as u128),
    )
}

} // verus!
