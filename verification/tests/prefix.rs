use prefix_tree::prefix::parse_address;
use prefix_tree::{CidrPrefix, IpAddress, ParseError};

#[test]
fn test_v4() {
    let cidr: CidrPrefix = CidrPrefix::from_str("127.0.0.0/8").unwrap();

    let expected = CidrPrefix { net: parse_address("127.0.0.0".as_bytes()).unwrap(), prefix: 8 };

    assert_eq!(cidr, expected);
    assert_eq!(cidr.net, IpAddress::V4(0x7f000000));
}

#[test]
fn test_v6() {
    let cidr = CidrPrefix::from_str("::1/128").unwrap();

    let expected = CidrPrefix { net: parse_address("::1".as_bytes()).unwrap(), prefix: 128 };
    assert_eq!(cidr, expected);
    assert_eq!(cidr.net, IpAddress::V6(1));
}

#[test]
fn test_invalid() {
    assert!(CidrPrefix::from_str("10.1.2.256/32").is_err());
    assert!(CidrPrefix::from_str("10.1.0.0/33").is_err());
    assert!(CidrPrefix::from_str("10.1.2.3/").is_err());
    assert!(CidrPrefix::from_str("10.1.2.3").is_err());
    assert!(CidrPrefix::from_str("/8").is_err());

    // Invalid v6
    assert!(CidrPrefix::from_str("1:2:3:4::5:6:7:8/8").is_err());
    assert!(CidrPrefix::from_str("1::3/129").is_err());
    assert!(CidrPrefix::from_str("/100").is_err());
}

#[test]
fn test_error_kinds() {
    assert_eq!(CidrPrefix::from_str("10.1.2.256/32"), Err(ParseError::InvalidAddress));
    assert_eq!(CidrPrefix::from_str("10.1.0.0/33"), Err(ParseError::LengthOutOfRange));
    assert_eq!(CidrPrefix::from_str("10.1.2.3/"), Err(ParseError::InvalidLength));
    assert_eq!(CidrPrefix::from_str("10.1.2.3"), Err(ParseError::MissingSeparator));
    assert_eq!(CidrPrefix::from_str("/8"), Err(ParseError::InvalidAddress));
    assert_eq!(CidrPrefix::from_str("1:2:3:4::5:6:7:8/8"), Err(ParseError::InvalidAddress));
    assert_eq!(CidrPrefix::from_str("1::3/129"), Err(ParseError::LengthOutOfRange));
    assert_eq!(CidrPrefix::from_str("/100"), Err(ParseError::InvalidAddress));
    assert_eq!(CidrPrefix::from_str(""), Err(ParseError::MissingSeparator));
    assert_eq!(CidrPrefix::from_str("10.0.0.0/x"), Err(ParseError::InvalidLength));
    assert_eq!(CidrPrefix::from_str("10.0.0.0/-1"), Err(ParseError::InvalidLength));
    assert_eq!(CidrPrefix::from_str("10.0.0.0/8/8"), Err(ParseError::InvalidLength));
    assert_eq!(CidrPrefix::from_str("10.0.0.0/300"), Err(ParseError::LengthOutOfRange));
    assert_eq!(
        CidrPrefix::from_str("10.0.0.0/99999999999999999999999999"),
        Err(ParseError::LengthOutOfRange)
    );
    assert_eq!(CidrPrefix::from_str("10.0.0.0 /8"), Err(ParseError::InvalidAddress));
    assert_eq!(CidrPrefix::from_str("10.0.0.0/ 8"), Err(ParseError::InvalidLength));
    assert_eq!(CidrPrefix::from_str("10.0.0.\u{e9}/8"), Err(ParseError::InvalidAddress));
}

#[test]
fn test_length_forms() {
    let net = IpAddress::V4(0x0a000000);
    assert_eq!(CidrPrefix::from_str("10.0.0.0/0"), Ok(CidrPrefix { net, prefix: 0 }));
    assert_eq!(CidrPrefix::from_str("10.0.0.0/32"), Ok(CidrPrefix { net, prefix: 32 }));
    assert_eq!(CidrPrefix::from_str("10.0.0.0/+8"), Ok(CidrPrefix { net, prefix: 8 }));
    assert_eq!(CidrPrefix::from_str("10.0.0.0/008"), Ok(CidrPrefix { net, prefix: 8 }));
    assert_eq!(CidrPrefix::from_str("10.0.0.0/+"), Err(ParseError::InvalidLength));
    assert_eq!(CidrPrefix::from_str("::/0"), Ok(CidrPrefix { net: IpAddress::V6(0), prefix: 0 }));
    assert_eq!(CidrPrefix::from_str("::/128"), Ok(CidrPrefix { net: IpAddress::V6(0), prefix: 128 }));
    assert_eq!(CidrPrefix::from_str("::/64"), Ok(CidrPrefix { net: IpAddress::V6(0), prefix: 64 }));
}

#[test]
fn test_v4_addresses() {
    assert_eq!(parse_address(b"0.0.0.0"), Some(IpAddress::V4(0)));
    assert_eq!(parse_address(b"255.255.255.255"), Some(IpAddress::V4(0xffffffff)));
    assert_eq!(parse_address(b"1.2.3.4"), Some(IpAddress::V4(0x01020304)));
    assert_eq!(parse_address(b"192.168.10.200"), Some(IpAddress::V4(0xc0a80ac8)));
    assert_eq!(parse_address(b""), None);
    assert_eq!(parse_address(b"1.2.3"), None);
    assert_eq!(parse_address(b"1.2.3.4.5"), None);
    assert_eq!(parse_address(b"1.2.3."), None);
    assert_eq!(parse_address(b".1.2.3"), None);
    assert_eq!(parse_address(b"1..2.3"), None);
    assert_eq!(parse_address(b"01.2.3.4"), None);
    assert_eq!(parse_address(b"1.2.3.04"), None);
    assert_eq!(parse_address(b"1.2.3.256"), None);
    assert_eq!(parse_address(b"1.2.3.1000"), None);
    assert_eq!(parse_address(b"1.2.3.4 "), None);
    assert_eq!(parse_address(b"1.2.3.a"), None);
    assert_eq!(parse_address(b"+1.2.3.4"), None);
}

#[test]
fn test_v6_addresses() {
    let v6 = |s: &str| match parse_address(s.as_bytes()) {
        Some(IpAddress::V6(a)) => Some(a),
        _ => None,
    };
    assert_eq!(v6("::"), Some(0));
    assert_eq!(v6("::1"), Some(1));
    assert_eq!(v6("1::"), Some(0x0001_0000_0000_0000_0000_0000_0000_0000));
    assert_eq!(v6("1:2:3:4:5:6:7:8"), Some(0x0001_0002_0003_0004_0005_0006_0007_0008));
    assert_eq!(v6("2001:db8::ff00:42:8329"), Some(0x2001_0db8_0000_0000_0000_ff00_0042_8329));
    assert_eq!(v6("2001:DB8::FF00:42:8329"), Some(0x2001_0db8_0000_0000_0000_ff00_0042_8329));
    assert_eq!(v6("fe80::1"), Some(0xfe80_0000_0000_0000_0000_0000_0000_0001));
    assert_eq!(v6("0001:0002:0003:0004:0005:0006:0007:0008"), v6("1:2:3:4:5:6:7:8"));
    assert_eq!(v6("1:2:3:4:5:6:7::"), Some(0x0001_0002_0003_0004_0005_0006_0007_0000));
    assert_eq!(v6("::2:3:4:5:6:7:8"), Some(0x0000_0002_0003_0004_0005_0006_0007_0008));
    assert_eq!(v6("::ffff:1.2.3.4"), Some(0x0000_0000_0000_0000_0000_ffff_0102_0304));
    assert_eq!(v6("::1.2.3.4"), Some(0x0102_0304));
    assert_eq!(v6("1:2:3:4:5:6:1.2.3.4"), Some(0x0001_0002_0003_0004_0005_0006_0102_0304));
    assert_eq!(v6("1:2:3:4:5::1.2.3.4"), Some(0x0001_0002_0003_0004_0005_0000_0102_0304));
    assert_eq!(v6("64:ff9b::192.0.2.33"), Some(0x0064_ff9b_0000_0000_0000_0000_c000_0221));

    assert_eq!(v6(""), None);
    assert_eq!(v6(":"), None);
    assert_eq!(v6(":::"), None);
    assert_eq!(v6("1"), None);
    assert_eq!(v6("1:2:3:4:5:6:7"), None);
    assert_eq!(v6("1:2:3:4:5:6:7:8:9"), None);
    assert_eq!(v6("1:2:3:4:5:6:7:8::"), None);
    assert_eq!(v6("::1:2:3:4:5:6:7:8"), None);
    assert_eq!(v6("1:2:3:4::5:6:7:8"), None);
    assert_eq!(v6("1::2::3"), None);
    assert_eq!(v6("1:::2"), None);
    assert_eq!(v6(":1:2:3:4:5:6:7:8"), None);
    assert_eq!(v6("1:2:3:4:5:6:7:8:"), None);
    assert_eq!(v6("12345::"), None);
    assert_eq!(v6("g::"), None);
    assert_eq!(v6("1.2.3.4::"), None);
    assert_eq!(v6("1:2:3:4:5:6:7:1.2.3.4"), None);
    assert_eq!(v6("1:2:3:4:5:6::1.2.3.4"), None);
    assert_eq!(v6("1:2:3:4:5:1.2.3.4"), None);
    assert_eq!(v6("::1.2.3.4:5"), None);
    assert_eq!(v6("::1.2.3.256"), None);
    assert_eq!(v6("::01.2.3.4"), None);
    assert_eq!(v6("::1%eth0"), None);
    assert_eq!(v6(" ::1"), None);
}
