use prefix_tree::ipv4::{parse_ipv4, parse_octet, push_ipv4};
use prefix_tree::ipv6::{find_gap, hex_digit, parse_group, parse_ipv6, parse_words};
use prefix_tree::ipv6_text::{push_hex, push_ipv6, split_words};
use prefix_tree::prefix::parse_length;
use prefix_tree::text::{find_byte, parse_decimal, push_decimal, split};
use prefix_tree::IpAddress;

#[test]
fn test_find_byte() {
    assert_eq!(find_byte(b"10.0.0.0/8", b'/'), 8);
    assert_eq!(find_byte(b"/8", b'/'), 0);
    assert_eq!(find_byte(b"a/b/c", b'/'), 1);
    assert_eq!(find_byte(b"abc", b'/'), 3);
    assert_eq!(find_byte(b"", b'/'), 0);
}

#[test]
fn test_split() {
    let none: Vec<&[u8]> = vec![b""];
    assert_eq!(split(b"", b'.'), none);
    let one: Vec<&[u8]> = vec![b"abc"];
    assert_eq!(split(b"abc", b'.'), one);
    let four: Vec<&[u8]> = vec![b"1", b"22", b"", b"4"];
    assert_eq!(split(b"1.22..4", b'.'), four);
    let ends: Vec<&[u8]> = vec![b"", b"x", b""];
    assert_eq!(split(b".x.", b'.'), ends);
    let gap: Vec<&[u8]> = vec![b"", b"", b"1"];
    assert_eq!(split(b"::1", b':'), gap);
}

#[test]
fn test_parse_decimal() {
    assert_eq!(parse_decimal(b"0"), Some(0));
    assert_eq!(parse_decimal(b"7"), Some(7));
    assert_eq!(parse_decimal(b"007"), Some(7));
    assert_eq!(parse_decimal(b"255"), Some(255));
    assert_eq!(parse_decimal(b"256"), Some(256));
    assert_eq!(parse_decimal(b"99999999999999999999999999999999"), Some(256));
    assert_eq!(parse_decimal(b""), None);
    assert_eq!(parse_decimal(b"+7"), None);
    assert_eq!(parse_decimal(b"7a"), None);
    assert_eq!(parse_decimal(b"99999999999999999999999999999999x"), None);
}

#[test]
fn test_parse_length() {
    assert_eq!(parse_length(b"24"), Some(24));
    assert_eq!(parse_length(b"+24"), Some(24));
    assert_eq!(parse_length(b"128"), Some(128));
    assert_eq!(parse_length(b"1000"), Some(256));
    assert_eq!(parse_length(b""), None);
    assert_eq!(parse_length(b"+"), None);
    assert_eq!(parse_length(b"++1"), None);
    assert_eq!(parse_length(b"-1"), None);
}

#[test]
fn test_push_decimal() {
    let mut out: Vec<u8> = b"n=".to_vec();
    push_decimal(&mut out, 0);
    out.push(b',');
    push_decimal(&mut out, 9);
    out.push(b',');
    push_decimal(&mut out, 10);
    out.push(b',');
    push_decimal(&mut out, 128);
    out.push(b',');
    push_decimal(&mut out, 4294967295);
    assert_eq!(out, b"n=0,9,10,128,4294967295".to_vec());
}

#[test]
fn test_octets() {
    assert_eq!(parse_octet(b"0"), Some(0));
    assert_eq!(parse_octet(b"9"), Some(9));
    assert_eq!(parse_octet(b"10"), Some(10));
    assert_eq!(parse_octet(b"255"), Some(255));
    assert_eq!(parse_octet(b"256"), None);
    assert_eq!(parse_octet(b"00"), None);
    assert_eq!(parse_octet(b"010"), None);
    assert_eq!(parse_octet(b""), None);
    assert_eq!(parse_octet(b"1x"), None);
}

#[test]
fn test_ipv4_text() {
    assert_eq!(parse_ipv4(b"10.1.2.3"), Some(0x0a010203));
    assert_eq!(parse_ipv4(b"::1"), None);
    let mut out: Vec<u8> = Vec::new();
    push_ipv4(&mut out, 0x0a010203);
    out.push(b' ');
    push_ipv4(&mut out, 0xff00807f);
    assert_eq!(out, b"10.1.2.3 255.0.128.127".to_vec());
}

#[test]
fn test_hex_digits_and_groups() {
    assert_eq!(hex_digit(b'0'), Some(0));
    assert_eq!(hex_digit(b'9'), Some(9));
    assert_eq!(hex_digit(b'a'), Some(10));
    assert_eq!(hex_digit(b'f'), Some(15));
    assert_eq!(hex_digit(b'A'), Some(10));
    assert_eq!(hex_digit(b'F'), Some(15));
    assert_eq!(hex_digit(b'g'), None);
    assert_eq!(hex_digit(b'G'), None);
    assert_eq!(hex_digit(b'/'), None);
    assert_eq!(hex_digit(b':'), None);
    assert_eq!(hex_digit(b'@'), None);
    assert_eq!(hex_digit(b'`'), None);

    assert_eq!(parse_group(b"0"), Some(0));
    assert_eq!(parse_group(b"0000"), Some(0));
    assert_eq!(parse_group(b"1f"), Some(0x1f));
    assert_eq!(parse_group(b"AbCd"), Some(0xabcd));
    assert_eq!(parse_group(b"ffff"), Some(0xffff));
    assert_eq!(parse_group(b""), None);
    assert_eq!(parse_group(b"00000"), None);
    assert_eq!(parse_group(b"12g"), None);
}

#[test]
fn test_gaps_and_words() {
    assert_eq!(find_gap(b"::1"), 0);
    assert_eq!(find_gap(b"1::"), 1);
    assert_eq!(find_gap(b"1:2::3::4"), 3);
    assert_eq!(find_gap(b"1:2:3"), 5);
    assert_eq!(find_gap(b":"), 1);
    assert_eq!(find_gap(b""), 0);

    assert_eq!(parse_words(b"", false), Some(vec![]));
    assert_eq!(parse_words(b"1:2:ff", false), Some(vec![1, 2, 0xff]));
    assert_eq!(parse_words(b"1:1.2.3.4", true), Some(vec![1, 0x0102, 0x0304]));
    assert_eq!(parse_words(b"1.2.3.4", true), Some(vec![0x0102, 0x0304]));
    assert_eq!(parse_words(b"1:1.2.3.4", false), None);
    assert_eq!(parse_words(b"1.2.3.4:1", true), None);
    assert_eq!(parse_words(b"1:", true), None);
    assert_eq!(parse_words(b":1", true), None);
}

#[test]
fn test_ipv6_text() {
    assert_eq!(parse_ipv6(b"1:2:3:4:5:6:7:8"), Some(0x0001_0002_0003_0004_0005_0006_0007_0008));
    assert_eq!(parse_ipv6(b"1.2.3.4"), None);
    assert_eq!(
        split_words(0x0001_0002_0003_0004_0005_0006_0007_0008),
        vec![1, 2, 3, 4, 5, 6, 7, 8]
    );
    assert_eq!(split_words(0xffff << 112), vec![0xffff, 0, 0, 0, 0, 0, 0, 0]);

    let mut out: Vec<u8> = Vec::new();
    push_hex(&mut out, 0);
    out.push(b' ');
    push_hex(&mut out, 0xf);
    out.push(b' ');
    push_hex(&mut out, 0x10);
    out.push(b' ');
    push_hex(&mut out, 0xabc);
    out.push(b' ');
    push_hex(&mut out, 0xffff);
    out.push(b' ');
    push_ipv6(&mut out, 0x2001_0db8_0000_0000_0000_0000_0000_0001);
    assert_eq!(out, b"0 f 10 abc ffff 2001:db8::1".to_vec());
}

#[test]
fn test_address_families() {
    assert_eq!(IpAddress::V4(0).max_prefix(), 32);
    assert_eq!(IpAddress::V6(0).max_prefix(), 128);
}
