use e57::ByteStreamWriteBuffer;

#[test]
fn bs_write_empty() {
    let mut buffer = ByteStreamWriteBuffer::new();
    assert_eq!(buffer.full_bytes(), 0);
    assert_eq!(buffer.all_bytes(), 0);

    let full = buffer.get_full_bytes();
    assert_eq!(full.len(), 0);

    let all = buffer.get_all_bytes();
    assert_eq!(all.len(), 0);
}

#[test]
fn add_bytes() {
    let mut buffer = ByteStreamWriteBuffer::new();
    buffer.add_bytes(&[1, 2, 3, 4]);
    assert_eq!(buffer.full_bytes(), 4);
    assert_eq!(buffer.all_bytes(), 4);

    let full = buffer.get_full_bytes();
    assert_eq!(full.len(), 4);
    assert_eq!(full, [1, 2, 3, 4]);

    assert_eq!(buffer.full_bytes(), 0);
    assert_eq!(buffer.all_bytes(), 0);
}

#[test]
fn add_bits_after_full_bytes() {
    let mut buffer = ByteStreamWriteBuffer::new();
    buffer.add_bytes(&[1, 2, 3, 4]);
    buffer.add_bits(&[0b00001111], 4);

    assert_eq!(buffer.full_bytes(), 4);
    assert_eq!(buffer.all_bytes(), 5);

    let full = buffer.get_full_bytes();
    assert_eq!(full.len(), 4);
    assert_eq!(full, [1, 2, 3, 4]);
    assert_eq!(buffer.full_bytes(), 0);
    assert_eq!(buffer.all_bytes(), 1);

    let all = buffer.get_all_bytes();
    assert_eq!(all.len(), 1);
    assert_eq!(all, [0b00001111]);

    assert_eq!(buffer.full_bytes(), 0);
    assert_eq!(buffer.all_bytes(), 0);
}

#[test]
fn add_two_times_four_bits() {
    let mut buffer = ByteStreamWriteBuffer::new();
    buffer.add_bits(&[0b00001111], 4);
    buffer.add_bits(&[0b00001111], 4);

    assert_eq!(buffer.full_bytes(), 1);
    assert_eq!(buffer.all_bytes(), 1);

    let all = buffer.get_all_bytes();
    assert_eq!(all, [0b11111111]);
}

#[test]
fn add_mixed_bits_and_bytes() {
    let mut buffer = ByteStreamWriteBuffer::new();
    buffer.add_bits(&[0b101], 3);
    buffer.add_bytes(&[0b10000001]);
    buffer.add_bits(&[0b100001], 6);

    assert_eq!(buffer.full_bytes(), 2);
    assert_eq!(buffer.all_bytes(), 3);

    let all = buffer.get_all_bytes();
    assert_eq!(all, [0b00001101, 0b00001100, 0b00000001]);
}
