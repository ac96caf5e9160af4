//! IPv4 addresses in dotted-quad notation.
//!
//! An address is written as four decimal numbers from 0 to 255, without
//! leading zeros, with a dot between each two of them.

use crate::text::{
    dec_text, dec_value, fields, free_of, is_canonical, is_digit, join, lemma_canonical_text,
    lemma_dec_text, lemma_fields_join, lemma_join_bytes, lemma_join_fields, parse_decimal, push_decimal, split, DIGIT_0,
};
use vstd::prelude::*;

verus! {

/// The dot between two numbers of an address.
pub const DOT: u8 = 0x2e;

/// The `k`-th of the four octets of `addr`, the first being the most
/// significant.
pub open spec fn octet(addr: u32, k: u32) -> u8
    recommends
        k < 4,
{
    ((addr >> (24 - 8 * k) as u32) & 0xff) as u8
}

/// The address made of four octets, the first being the most significant.
pub open spec fn pack_octets(a: u8, b: u8, c: u8, d: u8) -> u32 {
    (a as u32) << 24 | (b as u32) << 16 | (c as u32) << 8 | (d as u32)
}

/// The dotted-quad text of `addr`.
pub open spec fn ipv4_text(addr: u32) -> Seq<u8> {
    dec_text(octet(addr, 0) as nat) + seq![DOT] + dec_text(octet(addr, 1) as nat) + seq![DOT]
        + dec_text(octet(addr, 2) as nat) + seq![DOT] + dec_text(octet(addr, 3) as nat)
}

/// The octet that a field of an address denotes: a number up to 255
/// written without leading zeros.
pub open spec fn octet_of(field: Seq<u8>) -> Option<u8> {
    if is_canonical(field) && dec_value(field) <= 255 {
        Some(dec_value(field) as u8)
    } else {
        None
    }
}

/// The address that `s` denotes in dotted-quad notation, if it denotes one.
pub open spec fn ipv4_of(s: Seq<u8>) -> Option<u32> {
    let f = fields(s, DOT);
    if f.len() == 4 && octet_of(f[0]) is Some && octet_of(f[1]) is Some && octet_of(f[2]) is Some
        && octet_of(f[3]) is Some {
        Some(pack_octets(octet_of(f[0])->0, octet_of(f[1])->0, octet_of(f[2])->0, octet_of(f[3])->0))
    } else {
        None
    }
}

proof fn lemma_pack_octets(addr: u32)
    ensures
        pack_octets(octet(addr, 0), octet(addr, 1), octet(addr, 2), octet(addr, 3)) == addr,
{
    assert((((addr >> 24u32) & 0xff) as u8 as u32) << 24 | (((addr >> 16u32) & 0xff) as u8 as u32) << 16 | (((
    addr >> 8u32) & 0xff) as u8 as u32) << 8 | (((addr >> 0u32) & 0xff) as u8 as u32) == addr)
        by (bit_vector);
}

proof fn lemma_octets_packed(a: u8, b: u8, c: u8, d: u8)
    ensures
        octet(pack_octets(a, b, c, d), 0) == a,
        octet(pack_octets(a, b, c, d), 1) == b,
        octet(pack_octets(a, b, c, d), 2) == c,
        octet(pack_octets(a, b, c, d), 3) == d,
{
    let p = (a as u32) << 24 | (b as u32) << 16 | (c as u32) << 8 | (d as u32);
    assert(((p >> 24u32) & 0xff) as u8 == a && ((p >> 16u32) & 0xff) as u8 == b && ((p >> 8u32) & 0xff) as u8
        == c && ((p >> 0u32) & 0xff) as u8 == d) by (bit_vector)
        requires
            p == (a as u32) << 24 | (b as u32) << 16 | (c as u32) << 8 | (d as u32),
    ;
}

proof fn lemma_octet_text(v: u8)
    ensures
        octet_of(dec_text(v as nat)) == Some(v),
        forall|i: int| 0 <= i < dec_text(v as nat).len() ==> dec_text(v as nat)[i] != DOT,
{
    lemma_dec_text(v as nat);
    assert forall|i: int| 0 <= i < dec_text(v as nat).len() implies dec_text(v as nat)[i] != DOT by {
        assert(is_digit(dec_text(v as nat)[i]));
    }
}

proof fn lemma_quad_join(a: Seq<u8>, b: Seq<u8>, c: Seq<u8>, d: Seq<u8>)
    ensures
        join(seq![a, b, c, d], DOT) == a + seq![DOT] + b + seq![DOT] + c + seq![DOT] + d,
{
    let q = seq![a, b, c, d];
    assert(q.drop_last() =~= seq![a, b, c]);
    assert(seq![a, b, c].drop_last() =~= seq![a, b]);
    assert(seq![a, b].drop_last() =~= seq![a]);
    assert(join(seq![a], DOT) == a);
    assert(join(seq![a, b], DOT) == a + seq![DOT] + b);
    assert(join(seq![a, b, c], DOT) == a + seq![DOT] + b + seq![DOT] + c);
}

/// A text denotes an address exactly when it is the dotted-quad text of
/// that address: every address has one text, and no other text is read.
pub proof fn lemma_ipv4_of(s: Seq<u8>, addr: u32)
    ensures
        ipv4_of(s) == Some(addr) <==> s == ipv4_text(addr),
{
    if s == ipv4_text(addr) {
        let a = dec_text(octet(addr, 0) as nat);
        let b = dec_text(octet(addr, 1) as nat);
        let c = dec_text(octet(addr, 2) as nat);
        let d = dec_text(octet(addr, 3) as nat);
        let q = seq![a, b, c, d];
        lemma_octet_text(octet(addr, 0));
        lemma_octet_text(octet(addr, 1));
        lemma_octet_text(octet(addr, 2));
        lemma_octet_text(octet(addr, 3));
        lemma_quad_join(a, b, c, d);
        assert(free_of(q, DOT));
        lemma_join_fields(q, DOT);
        lemma_pack_octets(addr);
    }
    if ipv4_of(s) == Some(addr) {
        let f = fields(s, DOT);
        lemma_fields_join(s, DOT);
        lemma_canonical_text(f[0]);
        lemma_canonical_text(f[1]);
        lemma_canonical_text(f[2]);
        lemma_canonical_text(f[3]);
        lemma_octets_packed(octet_of(f[0])->0, octet_of(f[1])->0, octet_of(f[2])->0, octet_of(f[3])->0);
        assert(f =~= seq![f[0], f[1], f[2], f[3]]);
        lemma_quad_join(f[0], f[1], f[2], f[3]);
    }
}

/// The text of an address is made of digits and dots, and holds a dot.
pub proof fn lemma_ipv4_text_bytes(addr: u32)
    ensures
        forall|i: int|
            0 <= i < ipv4_text(addr).len() ==> is_digit(#[trigger] ipv4_text(addr)[i]) || ipv4_text(
                addr,
            )[i] == DOT,
        exists|i: int| 0 <= i < ipv4_text(addr).len() && ipv4_text(addr)[i] == DOT,
{
    let a = dec_text(octet(addr, 0) as nat);
    let b = dec_text(octet(addr, 1) as nat);
    let c = dec_text(octet(addr, 2) as nat);
    let d = dec_text(octet(addr, 3) as nat);
    let q = seq![a, b, c, d];
    let s = ipv4_text(addr);
    lemma_dec_text(octet(addr, 0) as nat);
    lemma_dec_text(octet(addr, 1) as nat);
    lemma_dec_text(octet(addr, 2) as nat);
    lemma_dec_text(octet(addr, 3) as nat);
    lemma_quad_join(a, b, c, d);
    assert forall|k: int, i: int| 0 <= k < q.len() && 0 <= i < q[k].len() implies is_digit(
        #[trigger] q[k][i],
    ) || q[k][i] == DOT by {}
    lemma_join_bytes(q, DOT, |x: u8| is_digit(x) || x == DOT);
    assert(s[a.len() as int] == DOT);
}

/// The octet that `field` denotes, if it denotes one.
pub fn parse_octet(field: &[u8]) -> (value: Option<u8>)
    ensures
        value == octet_of(field@),
{
    if field.len() > 1 && field[0] == DIGIT_0 {
        return None;
    }
    match parse_decimal(field) {
        Some(v) => if v <= 255 {
            Some(v as u8)
        } else {
            None
        },
        None => None,
    }
}

/// The address that `s` denotes in dotted-quad notation, if it denotes one.
pub fn parse_ipv4(s: &[u8]) -> (addr: Option<u32>)
    ensures
        addr == ipv4_of(s@),
{
    let parts = split(s, DOT);
    if parts.len() != 4 {
        return None;
    }
    let a = match parse_octet(parts[0]) {
        Some(v) => v,
        None => { return None; },
    };
    let b = match parse_octet(parts[1]) {
        Some(v) => v,
        None => { return None; },
    };
    let c = match parse_octet(parts[2]) {
        Some(v) => v,
        None => { return None; },
    };
    let d = match parse_octet(parts[3]) {
        Some(v) => v,
        None => { return None; },
    };
    Some((a as u32) << 24 | (b as u32) << 16 | (c as u32) << 8 | (d as u32))
}

/// Appends the dotted-quad text of `addr` to `out`.
pub fn push_ipv4(out: &mut Vec<u8>, addr: u32)
    ensures
        final(out)@ == old(out)@ + ipv4_text(addr),
{
    push_decimal(out, (addr >> 24) & 0xff);
    out.push(DOT);
    push_decimal(out, (addr >> 16) & 0xff);
    out.push(DOT);
    push_decimal(out, (addr >> 8) & 0xff);
    out.push(DOT);
    push_decimal(out, addr & 0xff);
    proof {
        assert(((addr >> 24u32) & 0xff) == ((addr >> 24u32) & 0xff) as u8 && ((addr >> 16u32) & 0xff) == ((addr
            >> 16u32) & 0xff) as u8 && ((addr >> 8u32) & 0xff) == ((addr >> 8u32) & 0xff) as u8 && (addr
            & 0xff) == ((addr >> 0u32) & 0xff) as u8) by (bit_vector);
        assert(out@ =~= old(out)@ + ipv4_text(addr));
    }
}

} // verus!
