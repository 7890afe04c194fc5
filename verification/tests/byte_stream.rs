use e57::ByteStream;

#[test]
fn byte_stream_empty() {
    let mut bs = ByteStream::new();
    assert_eq!(bs.available(), 0);
    let result = bs.extract(0).unwrap();
    assert_eq!(result.bits, 0);
    assert_eq!(result.offset, 0);
    assert_eq!(result.data, Vec::<u8>::new());

    assert_eq!(bs.available(), 0);
    assert!(bs.extract(1).is_none());
}

#[test]
fn byte_stream_append_and_extract_bits() {
    let mut bs = ByteStream::new();
    bs.append(vec![255]);

    assert_eq!(bs.available(), 8);
    let result = bs.extract(2).unwrap();
    assert_eq!(result.bits, 2);
    assert_eq!(result.offset, 0);
    assert_eq!(result.data, vec![255_u8]);

    assert_eq!(bs.available(), 6);
    let result = bs.extract(6).unwrap();
    assert_eq!(result.bits, 6);
    assert_eq!(result.offset, 2);
    assert_eq!(result.data, vec![255]);

    assert_eq!(bs.available(), 0);
    assert!(bs.extract(1).is_none());
}

#[test]
fn byte_stream_append_and_extract_bytes() {
    let mut bs = ByteStream::new();
    bs.append(vec![23, 42, 13]);
    bs.extract(2).unwrap();

    assert_eq!(bs.available(), 22);
    let result = bs.extract(22).unwrap();
    assert_eq!(result.bits, 22);
    assert_eq!(result.offset, 2);
    assert_eq!(result.data, vec![23, 42, 13]);
}

#[test]
fn byte_stream_remove_consume_when_appending() {
    let mut bs = ByteStream::new();
    bs.append(vec![1, 2, 3, 4, 5]);
    bs.extract(4 * 8 + 2).unwrap();

    // We append one byte and the buffer should become smaller
    // because all fully consumed bytes are removed.
    bs.append(vec![6]);
    assert!(bs.buffered_bytes() == 2);

    // Offsets are updated correctly appended
    // data can be extracted as expected.
    let result = bs.extract(14).unwrap();
    assert_eq!(result.bits, 14);
    assert_eq!(result.offset, 2);
    assert_eq!(result.data, vec![5, 6]);
}
