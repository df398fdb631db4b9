use ipset::{IpSetV4, IpSetV6};

fn v4(a: u8, b: u8, c: u8, d: u8) -> u32 {
    ((a as u32) << 24) | ((b as u32) << 16) | ((c as u32) << 8) | (d as u32)
}

fn v6(groups: [u16; 8]) -> u128 {
    let mut out: u128 = 0;
    for g in groups {
        out = (out << 16) | (g as u128);
    }
    out
}

#[test]
fn test_simple_ipset() {
    let mut builder = IpSetV4::builder();
    builder.add(v4(10, 0, 0, 0), 8);
    builder.add(v4(192, 168, 0, 0), 16);
    builder.add(v4(192, 168, 0, 0), 24);
    builder.add(v4(172, 16, 0, 0), 20);
    builder.add(v4(1, 2, 3, 4), 32);

    let ipset = builder.build();
    assert!(ipset.contains(v4(10, 0, 0, 1)));
    assert!(ipset.contains(v4(10, 0, 0, 2)));
    assert!(ipset.contains(v4(192, 168, 0, 1)));
    assert!(ipset.contains(v4(192, 168, 1, 2)));
    assert!(ipset.contains(v4(172, 16, 15, 241)));
    assert!(ipset.contains(v4(1, 2, 3, 4)));
    assert!(!ipset.contains(v4(172, 16, 255, 241)));
    assert!(!ipset.contains(v4(1, 1, 1, 1)));
    assert!(!ipset.contains(v4(1, 0, 0, 1)));
    assert!(!ipset.contains(v4(8, 8, 8, 8)));
    assert!(!ipset.contains(v4(8, 8, 4, 4)));
    assert!(!ipset.contains(v4(208, 67, 222, 222)));
    assert!(!ipset.contains(v4(208, 67, 220, 220)));
    assert!(!ipset.contains(v4(1, 2, 3, 5)));
}

#[test]
fn test_ipv6_simple() {
    let mut builder = IpSetV6::builder();
    builder.add(v6([0x2001, 0xdb8, 0, 0, 0, 0, 0, 0]), 32);
    builder.add(v6([0x2001, 0xdb8, 0, 0, 0, 0, 0, 0]), 64);
    builder.add(v6([0x2002, 0xdb8, 0, 0, 0, 0, 0, 1]), 128);
    builder.add(v6([0x2003, 0xdb8, 0, 0, 0, 0, 0, 1]), 64);
    builder.add(v6([0x2004, 0xdb8, 0, 0, 0, 0, 0, 1]), 32);

    let ipset = builder.build();

    let test_addrs: [(u128, bool); 6] = [
        (v6([0x2001, 0xdb8, 0, 0, 0, 0, 0, 1]), true),
        (v6([0x2002, 0xdb8, 0, 0, 0, 0, 0, 1]), true),
        (v6([0x2003, 0xdb8, 0, 0, 0, 0, 0, 3]), true),
        (v6([0x2004, 0xdb8, 0, 0, 0, 0, 0, 4]), true),
        (v6([0x2005, 0xdb8, 0, 0, 0, 0, 0, 1]), false),
        (v6([0x2002, 0xdb8, 0, 0, 0, 0, 0, 2]), false),
    ];

    for (addr, has) in test_addrs {
        assert_eq!(ipset.contains(addr), has);
    }
}

#[test]
fn add_with_arbitrary_bits() {
    let mut builder = IpSetV4::builder();
    // the prefix 0b0000_1010 of 10.0.0.0/8, bit by bit
    builder.add_with(&vec![false, false, false, false, true, false, true, false]);
    let ipset = builder.build();
    assert!(ipset.contains(v4(10, 77, 1, 200)));
    assert!(!ipset.contains(v4(11, 0, 0, 1)));
}

#[test]
fn empty_set_contains_nothing() {
    let ipset = IpSetV4::builder().build();
    assert!(!ipset.contains(v4(0, 0, 0, 0)));
    assert!(!ipset.contains(v4(1, 2, 3, 4)));
    assert!(!ipset.contains(v4(255, 255, 255, 255)));
}

#[test]
fn empty_set_contains_nothing_v6() {
    let ipset = IpSetV6::builder().build();
    assert!(!ipset.contains(v6([0, 0, 0, 0, 0, 0, 0, 0])));
    assert!(!ipset.contains(v6([0x2001, 0xdb8, 0, 0, 0, 0, 0, 1])));
    assert!(!ipset.contains(v6([0xffff; 8])));
}

#[test]
fn zero_length_prefix_matches_all() {
    let mut builder = IpSetV4::builder();
    builder.add(v4(203, 0, 113, 0), 0);
    let ipset = builder.build();
    assert!(ipset.contains(v4(0, 0, 0, 0)));
    assert!(ipset.contains(v4(8, 8, 8, 8)));
    assert!(ipset.contains(v4(255, 255, 255, 255)));
}

#[test]
fn full_length_prefix_matches_one() {
    let mut builder = IpSetV6::builder();
    builder.add(v6([0xfe80, 0, 0, 0, 0, 0, 0, 7]), 128);
    let ipset = builder.build();
    assert!(ipset.contains(v6([0xfe80, 0, 0, 0, 0, 0, 0, 7])));
    assert!(!ipset.contains(v6([0xfe80, 0, 0, 0, 0, 0, 0, 6])));
    assert!(!ipset.contains(v6([0xfe80, 0, 0, 0, 0, 0, 0, 8])));
}

#[test]
fn subsumed_prefix_changes_nothing() {
    let samples = [
        v4(10, 0, 0, 1),
        v4(10, 1, 2, 3),
        v4(10, 255, 255, 255),
        v4(11, 0, 0, 1),
        v4(9, 255, 255, 255),
        v4(192, 168, 1, 1),
    ];

    let mut b1 = IpSetV4::builder();
    b1.add(v4(10, 0, 0, 0), 8);
    let s1 = b1.build();

    let mut b2 = IpSetV4::builder();
    b2.add(v4(10, 0, 0, 0), 8);
    b2.add(v4(10, 1, 0, 0), 16);
    let s2 = b2.build();

    for a in samples {
        assert_eq!(s1.contains(a), s2.contains(a));
    }
}

#[test]
fn insertion_order_does_not_matter() {
    let samples = [
        v4(10, 0, 0, 1),
        v4(172, 16, 15, 241),
        v4(172, 16, 255, 241),
        v4(192, 168, 1, 2),
        v4(8, 8, 8, 8),
        v4(1, 2, 3, 4),
        v4(1, 2, 3, 5),
    ];

    let mut b1 = IpSetV4::builder();
    b1.add(v4(10, 0, 0, 0), 8);
    b1.add(v4(192, 168, 0, 0), 16);
    b1.add(v4(172, 16, 0, 0), 20);
    b1.add(v4(1, 2, 3, 4), 32);
    let s1 = b1.build();

    let mut b2 = IpSetV4::builder();
    b2.add(v4(1, 2, 3, 4), 32);
    b2.add(v4(172, 16, 0, 0), 20);
    b2.add(v4(10, 0, 0, 0), 8);
    b2.add(v4(192, 168, 0, 0), 16);
    let s2 = b2.build();

    for a in samples {
        assert_eq!(s1.contains(a), s2.contains(a));
    }
}

#[test]
fn repeated_add_is_idempotent() {
    let samples = [
        v4(203, 0, 113, 7),
        v4(203, 0, 114, 7),
        v4(203, 0, 113, 255),
        v4(0, 0, 0, 0),
    ];

    let mut b1 = IpSetV4::builder();
    b1.add(v4(203, 0, 113, 0), 24);
    let s1 = b1.build();

    let mut b2 = IpSetV4::builder();
    b2.add(v4(203, 0, 113, 0), 24);
    b2.add(v4(203, 0, 113, 0), 24);
    let s2 = b2.build();

    for a in samples {
        assert_eq!(s1.contains(a), s2.contains(a));
    }
}

#[test]
fn broader_prefix_wins() {
    let mut builder = IpSetV4::builder();
    builder.add(v4(10, 0, 0, 0), 16);
    builder.add(v4(10, 0, 0, 0), 8);
    let ipset = builder.build();
    // everything under 10.0.0.0/8 is in, well outside the /16
    assert!(ipset.contains(v4(10, 0, 1, 1)));
    assert!(ipset.contains(v4(10, 200, 3, 4)));
    assert!(ipset.contains(v4(10, 255, 255, 255)));
    assert!(!ipset.contains(v4(11, 0, 0, 1)));
}
