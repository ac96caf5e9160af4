use prefix_tree::Node;

#[test]
fn test_node_insert_find() {
    let mut root = Node::<u32>::new();
    // Add 10.1.1.0/24 as 1
    let key: u32 = 0x0a010100;
    let mask: u32 = 0xffffff00;
    let val: u32 = 1;
    root.insert(key, mask, val);

    // Add 10.8.0.0/16 as 2
    root.insert(0x0a080000 as u32, 0xffff0000, 2);

    // Add 127.0.0.0/8 as 3
    root.insert(0x7f000000 as u32, 0xff000000, 3);

    // 10.1.1.0/24 is 1
    assert_eq!(root.find(key, mask), Some(1));

    // 10.1.1.1/32 is 1
    assert_eq!(root.find(key + 1, 0xffffffff as u32), Some(1));

    // 10.1.1.255/32 is 1
    assert_eq!(root.find(0x0a0101ff, 0xffffffff), Some(1));

    // 10.1.2.0/32 is not present
    assert_eq!(root.find(0x0a010200, 0xffffffff), None);

    // 10.2.2.1 is not present
    assert_eq!(root.find(0x0a020201, 0xffffffff as u32), None);

    // 10.8.127.3/32 is 2
    assert_eq!(root.find(0x0a087f03, 0xffffffff), Some(2));

    // 10.9.127.3/32 is not present
    assert_eq!(root.find(0x0a097f03, 0xffffffff), None);

    // 127.255.0.255 is 3
    assert_eq!(root.find(0x7fff00ff, 0xffffffff), Some(3));

    // 128.0.0.0/8 is not present
    assert_eq!(root.find(0x80000000, 0xff000000), None);
}

#[test]
fn test_basic() {
    let mut root = Node::<u8>::new();
    root.insert(0x0a010200, 0xffffff00, 1);

    assert_eq!(root.find(0x0a010201, 0xffffffff), Some(1));
    assert_eq!(root.find(0x0a010280, 0xffffffff), Some(1));
    assert_eq!(root.find(0x0a0102c0, 0xffffffff), Some(1));
    assert_eq!(root.find(0x0a0102e0, 0xffffffff), Some(1));
    assert_eq!(root.find(0x0a0102f0, 0xffffffff), Some(1));
    assert_eq!(root.find(0x0a0102ff, 0xffffffff), Some(1));
    assert_eq!(root.find(0x0a01027f, 0xffffffff), Some(1));
    assert_eq!(root.find(0x0a010255, 0xffffffff), Some(1));
    assert_eq!(root.find(0x0a0102dd, 0xffffffff), Some(1));
}

#[test]
fn test_node_non_overlap() {
    let mut root = Node::<u8>::new();
    root.insert(0x0a010100, 0xffffff00, 1);
    root.insert(0x0a020000, 0xffff0000, 1);

    assert_eq!(root.find(0x0a010101, 0xffffffff), Some(1));
    assert_eq!(root.find(0x0a02ffff, 0xffffffff), Some(1));
}

#[test]
fn test_node_overlap_basic() {
    let mut root = Node::<u8>::new();
    root.insert(0x50000000, 0xf0000000, 1);
    assert_eq!(root.find(0x500000ff, 0xffffffff), Some(1));

    root.insert(0x40000000, 0xc0000000, 2);

    assert_eq!(root.find(0x500000ff, 0xffffffff), Some(1));
    assert_eq!(root.find(0x400000ff, 0xffffffff), Some(2));
}
