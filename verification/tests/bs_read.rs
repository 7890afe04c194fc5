use e57::ByteStreamReadBuffer;

#[test]
fn bs_read_empty() {
    let mut bs = ByteStreamReadBuffer::new();
    assert_eq!(bs.available(), 0);
    let result = bs.extract(0).unwrap();
    assert_eq!(result, 0);
    assert_eq!(bs.available(), 0);
    assert!(bs.extract(1).is_none());
}

#[test]
fn bs_read_append_and_extract_bits() {
    let mut bs = ByteStreamReadBuffer::new();
    bs.append(&[255]);

    assert_eq!(bs.available(), 8);
    let result = bs.extract(2).unwrap();
    assert_eq!(result, 255);

    assert_eq!(bs.available(), 6);
    let result = bs.extract(6).unwrap();
    assert_eq!(result, 63);

    assert_eq!(bs.available(), 0);
    assert!(bs.extract(1).is_none());
}

#[test]
fn bs_read_append_and_extract_bytes() {
    let mut bs = ByteStreamReadBuffer::new();
    bs.append(&[23, 42, 13]);
    bs.extract(2).unwrap();

    assert_eq!(bs.available(), 22);
    let result = bs.extract(22).unwrap();
    assert_eq!(result, 215685);
}

#[test]
fn bs_read_remove_consume_when_appending() {
    let mut bs = ByteStreamReadBuffer::new();
    bs.append(&[1, 2, 3, 4, 5]);
    bs.extract(4 * 8 + 2).unwrap();

    // We append one byte and the buffer should become smaller
    // because all fully consumed bytes are removed.
    bs.append(&[6]);
    assert!(bs.buffered_bytes() == 2);

    // Offsets are updated correctly appended
    // data can be extracted as expected.
    let result = bs.extract(14).unwrap();
    assert_eq!(result, 385);
}

#[test]
fn bs_read_bits_come_out_in_append_order() {
    let mut bs = ByteStreamReadBuffer::new();
    bs.append(&[0b1010_0101]);
    bs.append(&[0b0000_0011]);
    assert_eq!(bs.extract(4).unwrap() & 0xf, 0b0101);
    assert_eq!(bs.extract(4).unwrap() & 0xf, 0b1010);
    assert_eq!(bs.extract(8).unwrap() & 0xff, 0b0000_0011);
    assert!(bs.extract(1).is_none());
}
