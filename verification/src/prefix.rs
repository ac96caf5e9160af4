//! CIDR notation: an address, a slash, and a prefix length.

use crate::ipv4::{ipv4_of, ipv4_text, lemma_ipv4_of, lemma_ipv4_text_bytes, parse_ipv4, push_ipv4, DOT};
use crate::ipv6::{ipv6_of, parse_ipv6, COLON};
use crate::ipv6_text::{ipv6_text, is_address_byte, lemma_ipv6_text, push_ipv6};
use crate::text::{
    all_digits, dec_text, dec_value, find_byte, first_index, is_digit, lemma_dec_text,
    lemma_first_index, parse_decimal, push_decimal,
};
use vstd::prelude::*;
use vstd::slice::slice_subrange;
use vstd::string::StringSliceAdditionalSpecFns;
use vstd::utf8::{is_ascii_chars, is_ascii_chars_encode_utf8};

verus! {

/// The slash between the address and the prefix length.
pub const SLASH: u8 = 0x2f;

/// The sign that may stand before the prefix length.
pub const PLUS: u8 = 0x2b;

/// An address of either family, in numeric form.
#[derive(Debug, Clone, Copy, PartialEq, Eq, Structural)]
pub enum IpAddress {
    /// An IPv4 address: 32 bits.
    V4(u32),
    /// An IPv6 address: 128 bits.
    V6(u128),
}

/// A network in CIDR notation: of the address `net`, the first `prefix`
/// bits are significant.
#[derive(Debug, Clone, Copy, PartialEq, Eq, Structural)]
pub struct CidrPrefix {
    /// The address of the network.
    pub net: IpAddress,
    /// The number of leading bits of the address that are significant.
    pub prefix: u8,
}

/// Why a text is not a network in CIDR notation, or cannot be used as one.
#[derive(Debug, Clone, Copy, PartialEq, Eq, Structural)]
pub enum ParseError {
    /// The text holds no slash.
    MissingSeparator,
    /// What stands before the slash is no IPv4 or IPv6 address.
    InvalidAddress,
    /// What stands after the slash is no number.
    InvalidLength,
    /// The prefix length is larger than the number of bits of the address.
    LengthOutOfRange,
    /// The address is an IPv6 address where only IPv4 is supported.
    UnsupportedFamily,
}

impl IpAddress {
    /// The number of bits of an address of this family.
    pub open spec fn bits(self) -> nat {
        match self {
            IpAddress::V4(_) => 32,
            IpAddress::V6(_) => 128,
        }
    }

    /// The largest prefix length of an address of this family.
    pub fn max_prefix(&self) -> (n: u8)
        ensures
            n == self.bits(),
    {
        match self {
            IpAddress::V4(_) => 32,
            IpAddress::V6(_) => 128,
        }
    }
}

/// The text of an address: a dotted quad, or groups between colons.
pub open spec fn address_text(net: IpAddress) -> Seq<u8> {
    match net {
        IpAddress::V4(a) => ipv4_text(a),
        IpAddress::V6(a) => ipv6_text(a),
    }
}

/// The characters that the bytes of an ASCII text stand for.
pub open spec fn as_chars(bytes: Seq<u8>) -> Seq<char> {
    Seq::new(bytes.len(), |i: int| bytes[i] as char)
}

/// `b` may stand in the text of a network.
pub open spec fn is_cidr_byte(b: u8) -> bool {
    is_address_byte(b) || b == SLASH
}

impl CidrPrefix {
    /// The prefix length does not exceed the number of bits of the address.
    pub open spec fn wf(self) -> bool {
        self.prefix <= self.net.bits()
    }

    /// The text of the network: the address, a slash, and the prefix length
    /// in decimal.
    pub open spec fn text(self) -> Seq<u8> {
        address_text(self.net) + seq![SLASH] + dec_text(self.prefix as nat)
    }
}

/// The address that `s` denotes, in either notation, if it denotes one.
pub open spec fn address_of(s: Seq<u8>) -> Option<IpAddress> {
    match ipv4_of(s) {
        Some(a) => Some(IpAddress::V4(a)),
        None => match ipv6_of(s) {
            Some(a) => Some(IpAddress::V6(a)),
            None => None,
        },
    }
}

/// The number that `s` denotes as a prefix length, if it denotes one: one
/// or more decimal digits, which a plus sign may precede.
pub open spec fn length_of(s: Seq<u8>) -> Option<nat> {
    let digits = if s.len() > 0 && s[0] == PLUS {
        s.drop_first()
    } else {
        s
    };
    if digits.len() >= 1 && all_digits(digits) {
        Some(dec_value(digits))
    } else {
        None
    }
}

/// The network that `s` denotes in CIDR notation, or the reason why it
/// denotes none. The text is split at its first slash; the address is
/// judged before the length, and the length as a number before its range.
pub open spec fn cidr_of(s: Seq<u8>) -> Result<CidrPrefix, ParseError> {
    let at = first_index(s, SLASH);
    if at >= s.len() {
        Err(ParseError::MissingSeparator)
    } else {
        match address_of(s.take(at)) {
            None => Err(ParseError::InvalidAddress),
            Some(net) => match length_of(s.skip(at + 1)) {
                None => Err(ParseError::InvalidLength),
                Some(n) => if n > net.bits() {
                    Err(ParseError::LengthOutOfRange)
                } else {
                    Ok(CidrPrefix { net: net, prefix: n as u8 })
                },
            },
        }
    }
}

/// The text of an address is read back as that address, and holds no
/// slash.
pub proof fn lemma_address_text(net: IpAddress)
    ensures
        address_of(address_text(net)) == Some(net),
        forall|i: int| 0 <= i < address_text(net).len() ==> is_address_byte(#[trigger] address_text(net)[i]),
{
    let t = address_text(net);
    match net {
        IpAddress::V4(a) => {
            lemma_ipv4_of(t, a);
            lemma_ipv4_text_bytes(a);
        },
        IpAddress::V6(a) => {
            lemma_ipv6_text(a);
            if ipv4_of(t) is Some {
                let x = ipv4_of(t)->0;
                lemma_ipv4_of(t, x);
                lemma_ipv4_text_bytes(x);
                let i = choose|i: int| 0 <= i < t.len() && t[i] == COLON;
                assert(is_digit(t[i]) || t[i] == DOT);
            }
        },
    }
}

/// The decimal text of a number is read back as that prefix length.
pub proof fn lemma_length_text(n: nat)
    ensures
        length_of(dec_text(n)) == Some(n),
{
    lemma_dec_text(n);
    assert(is_digit(dec_text(n)[0]));
}

/// The text of a well-formed network is read back as that network.
pub proof fn lemma_text_parses(p: CidrPrefix)
    requires
        p.wf(),
    ensures
        cidr_of(p.text()) == Ok::<CidrPrefix, ParseError>(p),
{
    let t = address_text(p.net);
    let d = dec_text(p.prefix as nat);
    let s = p.text();
    lemma_address_text(p.net);
    lemma_length_text(p.prefix as nat);
    assert forall|k: int| 0 <= k < t.len() implies s[k] != SLASH by {
        assert(s[k] == t[k]);
        assert(is_address_byte(t[k]));
    }
    assert(s[t.len() as int] == SLASH);
    lemma_first_index(s, SLASH, t.len() as int);
    assert(s.take(t.len() as int) =~= t);
    assert(s.skip(t.len() as int + 1) =~= d);
}

/// Reading is stable under writing: the text of a network that was read
/// from any text is read back as the same network.
pub proof fn lemma_round_trip(s: Seq<u8>, p: CidrPrefix)
    requires
        cidr_of(s) == Ok::<CidrPrefix, ParseError>(p),
    ensures
        p.wf(),
        cidr_of(p.text()) == Ok::<CidrPrefix, ParseError>(p),
{
    lemma_text_parses(p);
}

/// Every byte of the text of a network is a hexadecimal digit, a dot, a
/// colon or a slash.
pub proof fn lemma_text_bytes(p: CidrPrefix)
    ensures
        forall|i: int| 0 <= i < p.text().len() ==> is_cidr_byte(#[trigger] p.text()[i]),
{
    let t = address_text(p.net);
    let d = dec_text(p.prefix as nat);
    let s = p.text();
    lemma_address_text(p.net);
    lemma_dec_text(p.prefix as nat);
    assert forall|i: int| 0 <= i < s.len() implies is_cidr_byte(#[trigger] s[i]) by {
        if i < t.len() {
            assert(s[i] == t[i]);
        } else if i > t.len() {
            assert(s[i] == d[i - t.len() - 1]);
            assert(is_digit(d[i - t.len() - 1]));
        }
    }
}

/// A string that holds the characters of the text of a well-formed network
/// is read as that network.
pub proof fn lemma_rendered_parses(p: CidrPrefix, s: &str)
    requires
        p.wf(),
        s@ == as_chars(p.text()),
    ensures
        cidr_of(s.spec_bytes()) == Ok::<CidrPrefix, ParseError>(p),
{
    let t = p.text();
    lemma_text_bytes(p);
    lemma_text_parses(p);
    assert forall|i: int| 0 <= i < s@.len() implies '\0' <= #[trigger] s@[i] <= '\u{7f}' && s@[i] as u8
        == t[i] by {
        assert(is_cidr_byte(t[i]));
        assert(s@[i] == t[i] as char);
    }
    assert(is_ascii_chars(s@));
    is_ascii_chars_encode_utf8(s@);
    assert(s.spec_bytes() =~= t);
}

/// The address that `s` denotes, in either notation, if it denotes one.
pub fn parse_address(s: &[u8]) -> (addr: Option<IpAddress>)
    ensures
        addr == address_of(s@),
{
    match parse_ipv4(s) {
        Some(a) => Some(IpAddress::V4(a)),
        None => match parse_ipv6(s) {
            Some(a) => Some(IpAddress::V6(a)),
            None => None,
        },
    }
}

/// The number that `s` denotes as a prefix length, if it denotes one;
/// numbers above 255 are given as 256.
pub fn parse_length(s: &[u8]) -> (len: Option<u32>)
    ensures
        len is Some <==> length_of(s@) is Some,
        len matches Some(n) ==> n == if length_of(s@)->0 <= 255 {
            length_of(s@)->0
        } else {
            256nat
        },
{
    if s.len() > 0 && s[0] == PLUS {
        proof {
            assert(s@.subrange(1, s@.len() as int) =~= s@.drop_first());
        }
        parse_decimal(slice_subrange(s, 1, s.len()))
    } else {
        parse_decimal(s)
    }
}

impl CidrPrefix {
    /// Reads a network in CIDR notation from the bytes of a text.
    pub fn from_bytes(s: &[u8]) -> (parsed: Result<CidrPrefix, ParseError>)
        ensures
            parsed == cidr_of(s@),
            parsed matches Ok(p) ==> p.wf(),
    {
        let at = find_byte(s, SLASH);
        if at >= s.len() {
            return Err(ParseError::MissingSeparator);
        }
        proof {
            assert(s@.subrange(0, at as int) =~= s@.take(at as int));
            assert(s@.subrange(at + 1, s@.len() as int) =~= s@.skip(at + 1));
        }
        let net = match parse_address(slice_subrange(s, 0, at)) {
            Some(net) => net,
            None => {
                return Err(ParseError::InvalidAddress);
            },
        };
        let len = match parse_length(slice_subrange(s, at + 1, s.len())) {
            Some(len) => len,
            None => {
                return Err(ParseError::InvalidLength);
            },
        };
        if len > net.max_prefix() as u32 {
            return Err(ParseError::LengthOutOfRange);
        }
        Ok(CidrPrefix { net: net, prefix: len as u8 })
    }

    /// Reads a network in CIDR notation, such as `10.0.0.0/8` or `::1/64`.
    pub fn from_str(s: &str) -> (parsed: Result<CidrPrefix, ParseError>)
        ensures
            parsed == cidr_of(s.spec_bytes()),
            parsed matches Ok(p) ==> p.wf(),
    {
        CidrPrefix::from_bytes(s.as_bytes())
    }

    /// The text of the network as bytes.
    pub fn to_bytes(&self) -> (out: Vec<u8>)
        ensures
            out@ == self.text(),
    {
        let mut out: Vec<u8> = Vec::new();
        match self.net {
            IpAddress::V4(a) => push_ipv4(&mut out, a),
            IpAddress::V6(a) => push_ipv6(&mut out, a),
        }
        out.push(SLASH);
        push_decimal(&mut out, self.prefix as u32);
        proof {
            assert(out@ =~= self.text());
        }
        out
    }

    /// The text of the network, such as `10.0.0.0/8` or `::1/64`.
    pub fn render(&self) -> (out: String)
        ensures
            out@ == as_chars(self.text()),
    {
        let bytes = self.to_bytes();
        let mut out = String::new();
        let mut i: usize = 0;
        proof {
            lemma_text_bytes(*self);
        }
        while i < bytes.len()
            invariant
                i <= bytes@.len(),
                forall|k: int| 0 <= k < bytes@.len() ==> is_cidr_byte(#[trigger] bytes@[k]),
                out@ == as_chars(bytes@.take(i as int)),
            decreases bytes.len() - i,
        {
            out.append(glyph(bytes[i]));
            proof {
                assert(out@ =~= as_chars(bytes@.take(i + 1)));
            }
            i += 1;
        }
        proof {
            assert(bytes@.take(i as int) =~= bytes@);
        }
        out
    }
}

/// The character that the byte `b` stands for, as a string.
fn glyph(b: u8) -> (s: &'static str)
    requires
        is_cidr_byte(b),
    ensures
        s@ == seq![b as char],
{
    proof {
        reveal_strlit("0");
        reveal_strlit("1");
        reveal_strlit("2");
        reveal_strlit("3");
        reveal_strlit("4");
        reveal_strlit("5");
        reveal_strlit("6");
        reveal_strlit("7");
        reveal_strlit("8");
        reveal_strlit("9");
        reveal_strlit("a");
        reveal_strlit("b");
        reveal_strlit("c");
        reveal_strlit("d");
        reveal_strlit("e");
        reveal_strlit("f");
        reveal_strlit("A");
        reveal_strlit("B");
        reveal_strlit("C");
        reveal_strlit("D");
        reveal_strlit("E");
        reveal_strlit("F");
        reveal_strlit(".");
        reveal_strlit(":");
        reveal_strlit("/");
    }
    let s = if b == 0x30 {
        "0"
    } else if b == 0x31 {
        "1"
    } else if b == 0x32 {
        "2"
    } else if b == 0x33 {
        "3"
    } else if b == 0x34 {
        "4"
    } else if b == 0x35 {
        "5"
    } else if b == 0x36 {
        "6"
    } else if b == 0x37 {
        "7"
    } else if b == 0x38 {
        "8"
    } else if b == 0x39 {
        "9"
    } else if b == 0x61 {
        "a"
    } else if b == 0x62 {
        "b"
    } else if b == 0x63 {
        "c"
    } else if b == 0x64 {
        "d"
    } else if b == 0x65 {
        "e"
    } else if b == 0x66 {
        "f"
    } else if b == 0x41 {
        "A"
    } else if b == 0x42 {
        "B"
    } else if b == 0x43 {
        "C"
    } else if b == 0x44 {
        "D"
    } else if b == 0x45 {
        "E"
    } else if b == 0x46 {
        "F"
    } else if b == DOT {
        "."
    } else if b == COLON {
        ":"
    } else {
        "/"
    };
    proof {
        assert(s@ =~= seq![b as char]);
    }
    s
}

} // verus!
