use prefix_tree::{Node, PrefixTree};

const FULL: u32 = 0xffffffff;

fn mask_of(len: u32) -> u32 {
    if len == 0 {
        0
    } else {
        FULL << (32 - len)
    }
}

#[test]
fn test_three_networks() {
    let mut root = Node::<u32>::new();
    root.insert(0x0a010100, 0xffffff00, 1);
    root.insert(0x0a080000, 0xffff0000, 2);
    root.insert(0x7f000000, 0xff000000, 3);

    assert_eq!(root.find(0x0a010101, FULL), Some(1));
    assert_eq!(root.find(0x0a0101ff, FULL), Some(1));
    assert_eq!(root.find(0x0a010200, FULL), None);
    assert_eq!(root.find(0x0a087f03, FULL), Some(2));
    assert_eq!(root.find(0x0a097f03, FULL), None);
    assert_eq!(root.find(0x7fff00ff, FULL), Some(3));
    assert_eq!(root.find(0x80000000, FULL), None);
}

#[test]
fn test_more_specific_wins() {
    let mut root = Node::<char>::new();
    root.insert(0x0a010000, 0xffff0000, 'A');
    root.insert(0x0a012d00, 0xffffff00, 'B');

    assert_eq!(root.find(0x0a012d58, FULL), Some('B'));
    assert_eq!(root.find(0x0a013216, FULL), Some('A'));
}

#[test]
fn test_sibling_regions() {
    let mut root = Node::<u8>::new();
    root.insert(0x50000000, 0xf0000000, 1);
    root.insert(0x40000000, 0xc0000000, 2);

    assert_eq!(root.find(0x500000ff, FULL), Some(1));
    assert_eq!(root.find(0x400000ff, FULL), Some(2));
}

#[test]
fn test_longest_match_any_order() {
    // nested prefixes, inserted in both orders
    let mut first = Node::<u8>::new();
    first.insert(0xc0a80000, mask_of(16), 1);
    first.insert(0xc0a80100, mask_of(24), 2);
    first.insert(0xc0a80180, mask_of(25), 3);

    let mut second = Node::<u8>::new();
    second.insert(0xc0a80180, mask_of(25), 3);
    second.insert(0xc0a80100, mask_of(24), 2);
    second.insert(0xc0a80000, mask_of(16), 1);

    for root in [&first, &second] {
        assert_eq!(root.find(0xc0a801ff, FULL), Some(3));
        assert_eq!(root.find(0xc0a80180, FULL), Some(3));
        assert_eq!(root.find(0xc0a8017f, FULL), Some(2));
        assert_eq!(root.find(0xc0a80201, FULL), Some(1));
        assert_eq!(root.find(0xc0a90000, FULL), None);
    }
}

#[test]
fn test_overwrite_keeps_the_rest() {
    let mut root = Node::<u16>::new();
    root.insert(0x0a000000, mask_of(8), 10);
    root.insert(0x0a010000, mask_of(16), 20);
    root.insert(0x0a010100, mask_of(24), 30);
    root.insert(0x0b000000, mask_of(8), 40);

    // the same prefix again: the last value stands
    root.insert(0x0a010000, mask_of(16), 21);

    assert_eq!(root.find(0x0a010000, mask_of(16)), Some(21));
    assert_eq!(root.find(0x0a000000, mask_of(8)), Some(10));
    assert_eq!(root.find(0x0a010100, mask_of(24)), Some(30));
    assert_eq!(root.find(0x0b000000, mask_of(8)), Some(40));
    assert_eq!(root.find(0x0a010203, FULL), Some(21));
    assert_eq!(root.find(0x0a010103, FULL), Some(30));
    assert_eq!(root.find(0x0a020304, FULL), Some(10));

    // a broader prefix afterwards leaves the narrower ones alone
    root.insert(0, 0, 99);
    assert_eq!(root.find(0x0a010103, FULL), Some(30));
    assert_eq!(root.find(0x0a010203, FULL), Some(21));
    assert_eq!(root.find(0x0c000000, FULL), Some(99));
}

#[test]
fn test_no_match() {
    let root = Node::<u8>::new();
    assert_eq!(root.find(0, FULL), None);
    assert_eq!(root.find(0x0a000001, FULL), None);
    assert_eq!(root.find(0x0a000001, 0), None);

    let mut root = Node::<u8>::new();
    root.insert(0x0a000000, mask_of(8), 1);
    assert_eq!(root.find(0x0b000000, FULL), None);
    assert_eq!(root.find(0x09ffffff, FULL), None);
    assert_eq!(root.find(0x8a000000, FULL), None);
}

#[test]
fn test_mask_boundary_every_length() {
    let net: u32 = 0xa5c3_96e1;
    for len in 0..=32u32 {
        let mask = mask_of(len);
        let mut root = Node::<u32>::new();
        root.insert(net, mask, len);

        // agreeing in the top bits: the network itself, and both ends of it
        assert_eq!(root.find(net, FULL), Some(len));
        assert_eq!(root.find(net & mask, FULL), Some(len));
        assert_eq!(root.find(net | !mask, FULL), Some(len));

        // disagreeing in any one of the top bits
        for bit in 0..len {
            let other = net ^ (0x8000_0000u32 >> bit);
            assert_eq!(root.find(other, FULL), None);
        }
    }
}

#[test]
fn test_mask_boundary_with_override() {
    let mut root = Node::<u8>::new();
    root.insert(0x0a000000, mask_of(8), 1);
    root.insert(0x0a800000, mask_of(9), 2);
    assert_eq!(root.find(0x0a7fffff, FULL), Some(1));
    assert_eq!(root.find(0x0a800000, FULL), Some(2));
    assert_eq!(root.find(0x0affffff, FULL), Some(2));
    assert_eq!(root.find(0x0b000000, FULL), None);
}

#[test]
fn test_find_within_budget() {
    let mut root = Node::<u8>::new();
    root.insert(0x0a000000, mask_of(8), 1);
    root.insert(0x0a010000, mask_of(16), 2);

    // the mask of the lookup bounds how deep it goes
    assert_eq!(root.find(0x0a010203, mask_of(16)), Some(2));
    assert_eq!(root.find(0x0a010203, mask_of(15)), Some(1));
    assert_eq!(root.find(0x0a010203, mask_of(8)), Some(1));
    assert_eq!(root.find(0x0a010203, mask_of(7)), None);
    assert_eq!(root.find(0x0a010203, 0), None);
}

#[test]
fn test_find_with_start_value() {
    let mut root = Node::<u8>::new();
    root.insert(0x0a000000, mask_of(8), 1);
    assert_eq!(root._find(0x0a010203, FULL, Some(9)), Some(1));
    assert_eq!(root._find(0x0b010203, FULL, Some(9)), Some(9));
    assert_eq!(root._find(0x0b010203, FULL, None), None);
}

#[test]
fn test_mask_with_gaps() {
    // the last set bit of the mask ends the prefix
    let mut root = Node::<u8>::new();
    root.insert(0x0a010203, 0x0000_0001, 1);
    assert_eq!(root.find(0x0a010203, FULL), Some(1));
    assert_eq!(root.find(0x0a010202, FULL), None);

    let mut root = Node::<u8>::new();
    root.insert(0x0a010203, 0x00ff_0000, 1);
    assert_eq!(root.find(0x0a01ffff, FULL), Some(1));
    assert_eq!(root.find(0x0a02ffff, FULL), None);
}

#[test]
fn test_tree_covers_like_node() {
    let mut tree = PrefixTree::new();
    let mut root = Node::<u8>::new();
    let nets: [(u32, u32); 4] =
        [(0x0a010100, 24), (0x0a080000, 16), (0x7f000000, 8), (0xc0a80101, 32)];
    for (net, len) in nets.iter() {
        tree.add_prefix(*net, mask_of(*len));
        root.insert(*net, mask_of(*len), 1);
    }
    let probes: [u32; 8] = [
        0x0a010101, 0x0a010201, 0x0a08ffff, 0x0a090000, 0x7f000001, 0x80000000, 0xc0a80101,
        0xc0a80102,
    ];
    for addr in probes.iter() {
        assert_eq!(tree.contains_addr_v4(*addr), root.find(*addr, FULL).is_some());
    }
}
