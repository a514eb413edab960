use http_proxy::wire::{write_bytes_field, write_varint, Reader};

fn varint(value: u64) -> Vec<u8> {
    let mut out = Vec::new();
    write_varint(&mut out, value);
    out
}

#[test]
fn varints_are_as_short_as_possible() {
    assert_eq!(varint(0), vec![0x00]);
    assert_eq!(varint(127), vec![0x7f]);
    assert_eq!(varint(128), vec![0x80, 0x01]);
    assert_eq!(varint(300), vec![0xac, 0x02]);
    assert_eq!(
        varint(u64::MAX),
        vec![0xff, 0xff, 0xff, 0xff, 0xff, 0xff, 0xff, 0xff, 0xff, 0x01]
    );
}

#[test]
fn varints_read_back() {
    let mut values = vec![0, 1, u64::MAX, u64::MAX - 1];
    for bit in 0..64 {
        values.push(1u64 << bit);
        values.push((1u64 << bit) - 1);
        values.push((1u64 << bit) + 1);
    }
    for value in values {
        let mut bytes = varint(value);
        let len = bytes.len();
        bytes.extend_from_slice(b"rest");
        let mut r = Reader::new(&bytes);
        assert_eq!(r.varint(), Some(value));
        assert_eq!(r.pos, len);
    }
}

#[test]
fn varint_bits_beyond_the_last_are_dropped() {
    let bytes = [0x80, 0x80, 0x80, 0x80, 0x80, 0x80, 0x80, 0x80, 0x80, 0x7f];
    let mut r = Reader::new(&bytes);
    assert_eq!(r.varint(), Some(1u64 << 63));
    assert_eq!(r.pos, 10);
}

#[test]
fn varint_failures_move_the_reader() {
    let long = [0x80u8; 20];
    let mut r = Reader::new(&long);
    assert_eq!(r.varint(), None);
    assert_eq!(r.pos, 11);
    let cut = [0x80u8; 3];
    let mut r = Reader::new(&cut);
    assert_eq!(r.varint(), None);
    assert_eq!(r.pos, 3);
    let mut r = Reader::new(&[]);
    assert_eq!(r.varint(), None);
    assert_eq!(r.pos, 0);
}

#[test]
fn taking_bytes() {
    let bytes = [1u8, 2, 3, 4, 5];
    let mut r = Reader::new(&bytes);
    assert_eq!(r.take(2), Some(&bytes[0..2]));
    assert_eq!(r.take(4), None);
    assert_eq!(r.pos, 2);
    assert_eq!(r.take(usize::MAX), None);
    assert_eq!(r.pos, 2);
    assert_eq!(r.take(3), Some(&bytes[2..5]));
    assert_eq!(r.take(0), Some(&bytes[5..5]));
    assert_eq!(r.take(1), None);
}

#[test]
fn length_delimited_values() {
    let bytes = [3u8, b'a', b'b', b'c', 9, b'd'];
    let mut r = Reader::new(&bytes);
    assert_eq!(r.length_delimited(), Some(&b"abc"[..]));
    assert_eq!(r.pos, 4);
    assert_eq!(r.length_delimited(), None);
    assert_eq!(r.pos, 5);
}

#[test]
fn skipping_by_wire_type() {
    let bytes = [0x96u8, 0x01, 2, 4, 5, 6, 7, 8, 9];
    let skipped = |wire_type: u64| {
        let mut r = Reader::new(&bytes);
        (r.skip(wire_type), r.pos)
    };
    assert_eq!(skipped(0), (Some(()), 2));
    assert_eq!(skipped(1), (Some(()), 8));
    assert_eq!(skipped(2), (None, 2));
    assert_eq!(skipped(3), (None, 0));
    assert_eq!(skipped(4), (None, 0));
    assert_eq!(skipped(5), (Some(()), 4));
    assert_eq!(skipped(6), (None, 0));
    assert_eq!(skipped(7), (None, 0));
    let mut r = Reader::new(&bytes[2..]);
    assert_eq!((r.skip(2), r.pos), (Some(()), 3));
    let mut r = Reader::new(&bytes[..3]);
    assert_eq!((r.skip(5), r.pos), (None, 0));
    assert_eq!((r.skip(1), r.pos), (None, 0));
}

#[test]
fn bytes_fields_append() {
    let mut out = vec![0xee];
    write_bytes_field(&mut out, 2, b"xy");
    assert_eq!(out, vec![0xee, 0x12, 0x02, b'x', b'y']);
    let mut out = Vec::new();
    write_bytes_field(&mut out, 16, b"");
    assert_eq!(out, vec![0x82, 0x01, 0x00]);
}
