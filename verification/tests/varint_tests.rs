use ipset::varint::{read_varint, write_varint};

fn round_trip(v: usize) -> (Vec<u8>, usize, usize) {
    let mut bytes: Vec<u8> = Vec::new();
    let written = write_varint(&mut bytes, v);
    let (value, len) = read_varint(&bytes, 0);
    assert_eq!(value, v);
    assert_eq!(len, written);
    assert_eq!(len, bytes.len());
    (bytes, value, len)
}

#[test]
fn varint_round_trips() {
    for v in [
        0usize,
        1,
        2,
        127,
        128,
        129,
        300,
        16383,
        16384,
        65535,
        2097151,
        2097152,
        usize::MAX / 2,
        usize::MAX,
    ] {
        round_trip(v);
    }
}

#[test]
fn varint_known_encodings() {
    let (bytes, _, _) = round_trip(0);
    assert_eq!(bytes, vec![0x00]);
    let (bytes, _, _) = round_trip(1);
    assert_eq!(bytes, vec![0x01]);
    let (bytes, _, _) = round_trip(127);
    assert_eq!(bytes, vec![0x7f]);
    let (bytes, _, _) = round_trip(128);
    assert_eq!(bytes, vec![0x80, 0x01]);
    let (bytes, _, _) = round_trip(300);
    assert_eq!(bytes, vec![0xac, 0x02]);
}

#[test]
fn varint_reads_at_offset() {
    let mut bytes: Vec<u8> = Vec::new();
    let n1 = write_varint(&mut bytes, 5);
    let n2 = write_varint(&mut bytes, 1000);
    let _ = write_varint(&mut bytes, 0);
    let (a, la) = read_varint(&bytes, 0);
    assert_eq!((a, la), (5, n1));
    let (b, lb) = read_varint(&bytes, n1);
    assert_eq!((b, lb), (1000, n2));
    let (c, lc) = read_varint(&bytes, n1 + n2);
    assert_eq!((c, lc), (0, 1));
}
