use prefix_tree::prefix::parse_address;
use prefix_tree::{CidrPrefix, IpAddress};

struct Rng(u64);

impl Rng {
    fn next(&mut self) -> u64 {
        self.0 ^= self.0 << 13;
        self.0 ^= self.0 >> 7;
        self.0 ^= self.0 << 17;
        self.0
    }

    fn below(&mut self, n: u64) -> u64 {
        self.next() % n
    }

    fn wide(&mut self) -> u128 {
        (self.next() as u128) << 64 | self.next() as u128
    }
}

/// What is read from a text is written as a text that is read as the same.
fn stable(text: &str) {
    if let Some(net) = parse_address(text.as_bytes()) {
        let prefix = CidrPrefix { net, prefix: 0 };
        let written = prefix.render();
        assert_eq!(CidrPrefix::from_str(&written), Ok(prefix), "on {:?}", text);
        assert_eq!(CidrPrefix::from_str(&format!("{}/0", text)), Ok(prefix), "on {:?}", text);
    }
}

#[test]
fn test_sweep_texts_from_pieces() {
    let pieces: [&str; 24] = [
        "0", "1", "9", "10", "255", "256", "01", "a", "f", "F", "ff", "ffff", "fffff", "0000",
        "12ab", "g", ":", "::", ".", "1.2.3.4", "255.255.255.255", "1.2.3", "::1", "",
    ];
    let joints: [&str; 4] = [":", ".", "", "::"];
    let mut rng = Rng(0x9e3779b97f4a7c15);
    let mut read: u32 = 0;
    for _ in 0..100000 {
        let n = 1 + rng.below(9);
        let mut text = String::new();
        for k in 0..n {
            if k > 0 {
                let joint = if rng.below(8) == 0 { joints[rng.below(4) as usize] } else { ":" };
                text.push_str(joint);
            }
            text.push_str(pieces[rng.below(24) as usize]);
        }
        if parse_address(text.as_bytes()).is_some() {
            read += 1;
        }
        stable(&text);
    }
    assert!(read > 100);
}

#[test]
fn test_sweep_texts_from_bytes() {
    let alphabet: &[u8] = b"0123456789abcdefABCDEF:::...gG +-/%";
    let mut rng = Rng(0x2545f4914f6cdd1d);
    for _ in 0..100000 {
        let n = rng.below(24);
        let mut text = String::new();
        for _ in 0..n {
            text.push(alphabet[rng.below(alphabet.len() as u64) as usize] as char);
        }
        stable(&text);
    }
}

#[test]
fn test_sweep_networks() {
    let mut rng = Rng(0x853c49e6748fea9b);
    for _ in 0..60000 {
        let bits = rng.wide();
        let mask = match rng.below(5) {
            0 => u128::MAX,
            1 => rng.wide(),
            2 => rng.wide() & rng.wide(),
            3 => 0x0000_0000_0000_0000_0000_ffff_ffff_ffff,
            _ => 0xffff_ffff,
        };
        let prefix = rng.below(129) as u8;
        let net = CidrPrefix { net: IpAddress::V6(bits & mask), prefix };
        assert_eq!(CidrPrefix::from_str(&net.render()), Ok(net));

        let prefix = rng.below(33) as u8;
        let net = CidrPrefix { net: IpAddress::V4(bits as u32), prefix };
        assert_eq!(CidrPrefix::from_str(&net.render()), Ok(net));
    }
}

#[test]
fn test_sweep_lengths() {
    let alphabet: &[u8] = b"0123456789+- 015";
    let mut rng = Rng(0x5851f42d4c957f2d);
    for _ in 0..60000 {
        let n = rng.below(5);
        let mut len = String::new();
        for _ in 0..n {
            len.push(alphabet[rng.below(alphabet.len() as u64) as usize] as char);
        }
        let text = format!("10.0.0.0/{}", len);
        let expected = match len.parse::<u8>() {
            Ok(n) if n <= 32 => Some(n),
            _ => None,
        };
        assert_eq!(CidrPrefix::from_str(&text).ok().map(|p| p.prefix), expected, "on {:?}", text);
    }
}
