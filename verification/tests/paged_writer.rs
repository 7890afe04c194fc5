use e57::PagedWriter;

const PAGE_SIZE: u64 = 1024;
const CRC_SIZE: u64 = 4;
const PAGE_PAYLOAD_SIZE: usize = (PAGE_SIZE - CRC_SIZE) as usize;

#[test]
fn paged_writer_empty() {
    let writer = PagedWriter::new(Vec::new()).unwrap();
    let content = writer.finish().unwrap();
    assert_eq!(content.len(), 0);
}

#[test]
fn not_empty_target_fails() {
    assert!(matches!(
        PagedWriter::new(vec![1_u8]),
        Err(e57::Error::Write { .. })
    ));
}

#[test]
fn partial_page() {
    // Write only three bytes
    let mut writer = PagedWriter::new(Vec::new()).unwrap();
    writer.write_all(&[0_u8, 1_u8, 2_u8]).unwrap();
    let content = writer.finish().unwrap();
    assert_eq!(content.len() as u64, PAGE_SIZE);

    // Check file content
    assert_eq!(content[0], 0_u8);
    assert_eq!(content[1], 1_u8);
    assert_eq!(content[2], 2_u8);
    for i in 3..PAGE_PAYLOAD_SIZE {
        assert_eq!(content[i], 0_u8);
    }
    assert_eq!(&content[PAGE_PAYLOAD_SIZE..], &[156, 69, 208, 231]);
}

#[test]
fn single_page() {
    let mut writer = PagedWriter::new(Vec::new()).unwrap();

    // Write exactly one page
    let data = vec![1_u8; PAGE_PAYLOAD_SIZE];
    writer.write_all(&data).unwrap();
    let content = writer.finish().unwrap();
    assert_eq!(content.len() as u64, PAGE_SIZE);

    // Check file content
    for i in 0..PAGE_PAYLOAD_SIZE {
        assert_eq!(content[i], 1_u8);
    }
    assert_eq!(&content[PAGE_PAYLOAD_SIZE..], &[25, 85, 144, 35]);
}

#[test]
fn multi_page() {
    let mut writer = PagedWriter::new(Vec::new()).unwrap();

    // Write a little bit more than one page
    let mut data = vec![1_u8; PAGE_PAYLOAD_SIZE + 1];
    data[PAGE_PAYLOAD_SIZE] = 2_u8;
    writer.write_all(&data).unwrap();
    let content = writer.finish().unwrap();
    assert_eq!(content.len() as u64, 2 * PAGE_SIZE);

    // Check first page with ones
    let offset = 0;
    for i in 0..PAGE_PAYLOAD_SIZE {
        assert_eq!(content[offset + i], 1_u8);
    }
    assert_eq!(
        &content[PAGE_PAYLOAD_SIZE..PAGE_PAYLOAD_SIZE + CRC_SIZE as usize],
        &[25, 85, 144, 35]
    );

    // Check second page with one two and lots of zeros
    let offset = PAGE_SIZE as usize;
    assert_eq!(content[offset], 2_u8);
    for i in 1..PAGE_PAYLOAD_SIZE {
        assert_eq!(content[offset + i], 0_u8);
    }
    assert_eq!(&content[(offset + PAGE_PAYLOAD_SIZE)..], &[40, 41, 250, 169]);
}

#[test]
fn flush_in_page() {
    let mut writer = PagedWriter::new(Vec::new()).unwrap();

    // Partial page
    writer.write_all(&[0_u8, 1_u8, 2_u8]).unwrap();

    // Flush
    writer.flush().unwrap();

    // Write more data into page
    writer.write_all(&[3_u8, 4_u8, 5_u8]).unwrap();

    // Close and check size
    let content = writer.finish().unwrap();
    assert_eq!(content.len() as u64, PAGE_SIZE);

    // Check file content
    for i in 0..6 {
        assert_eq!(content[i], i as u8);
    }
    for i in 6..PAGE_PAYLOAD_SIZE {
        assert_eq!(content[i], 0_u8);
    }
    assert_eq!(&content[PAGE_PAYLOAD_SIZE..], &[50, 14, 64, 153]);
}

#[test]
fn seek_existing_page() {
    let mut writer = PagedWriter::new(Vec::new()).unwrap();

    // Write two pages with ones
    let data = vec![1_u8; PAGE_PAYLOAD_SIZE * 2];
    writer.write_all(&data).unwrap();

    // Got back to start and write some twos
    writer.physical_seek(2).unwrap();
    writer.write_all(&[2_u8, 2_u8]).unwrap();
    let content = writer.finish().unwrap();

    // Check file content
    assert_eq!(content[0], 1_u8);
    assert_eq!(content[1], 1_u8);
    assert_eq!(content[2], 2_u8);
    assert_eq!(content[3], 2_u8);
    assert_eq!(content[4], 1_u8);
    assert_eq!(content[5], 1_u8);
}

#[test]
fn seek_after_end() {
    let mut writer = PagedWriter::new(Vec::new()).unwrap();

    // Seek to start should work
    writer.physical_seek(0).unwrap();

    // Seeking further fails
    assert!(writer.physical_seek(2).is_err());
}

#[test]
fn seek_into_checksum_fails() {
    let mut writer = PagedWriter::new(Vec::new()).unwrap();
    writer.write_all(&vec![7_u8; 2000]).unwrap();
    assert!(writer.physical_seek(1021).is_err());
    assert!(writer.physical_seek(1019).is_ok());
}

#[test]
fn phys_position_size() {
    let mut writer = PagedWriter::new(Vec::new()).unwrap();

    // Write a page and some bytes
    let data = vec![1_u8; 1028];
    writer.write_all(&data).unwrap();

    // We expect the physical position to be the logical + CRC size
    let pos = writer.physical_position().unwrap();
    assert_eq!(pos, 1028 + CRC_SIZE);

    // We expect the physical size to be two pages with CRC sums
    let size = writer.physical_size().unwrap();
    assert_eq!(size, PAGE_SIZE * 2);
}

#[test]
fn paged_writer_align() {
    let mut writer = PagedWriter::new(Vec::new()).unwrap();

    writer.align().unwrap();
    assert_eq!(writer.physical_position().unwrap(), 0);

    let data = vec![1_u8; 2];
    writer.write_all(&data).unwrap();
    writer.align().unwrap();
    assert_eq!(writer.physical_position().unwrap(), 4);

    // Check file content
    let content = writer.finish().unwrap();
    assert_eq!(content[0], 1_u8);
    assert_eq!(content[1], 1_u8);
    assert_eq!(content[2], 0_u8);
    assert_eq!(content[3], 0_u8);
}

#[test]
fn short_seek_back() {
    let mut writer = PagedWriter::new(Vec::new()).unwrap();

    writer.write_all(&[4, 1, 2, 3]).unwrap();
    // This seek places the cursor within an incomplete page.
    writer.physical_seek(0).unwrap();
    writer.write_all(&[0]).unwrap();
    writer.flush().unwrap();

    // Check file content
    let content = writer.finish().unwrap();
    assert_eq!(content[0], 0_u8);
    assert_eq!(content[1], 1_u8);
    assert_eq!(content[2], 2_u8);
    assert_eq!(content[3], 3_u8);
}

#[test]
fn write_into_page() {
    let mut writer = PagedWriter::new(Vec::new()).unwrap();

    writer.write_all(&[1; PAGE_PAYLOAD_SIZE]).unwrap();
    writer.write_all(&[2; PAGE_PAYLOAD_SIZE]).unwrap();
    writer.physical_seek(PAGE_PAYLOAD_SIZE as u64 - 1).unwrap();
    // These two bytes span a page boundary.
    writer.write_all(&[3; 2]).unwrap();
    writer.flush().unwrap();

    // Check file content
    let content = writer.finish().unwrap();
    for i in 0..PAGE_PAYLOAD_SIZE - 1 {
        assert_eq!(
            content[i], 1_u8,
            "Expected 1 at {} but got {}",
            i, content[i],
        );
    }
    assert_eq!(3, content[PAGE_PAYLOAD_SIZE - 1]);
    assert_eq!(3, content[PAGE_SIZE as usize]);
    for i in PAGE_SIZE as usize + 1..(PAGE_SIZE as usize + PAGE_PAYLOAD_SIZE) {
        assert_eq!(
            content[i], 2_u8,
            "Expected 2 at {} but got {}",
            i, content[i],
        );
    }
}

#[test]
fn write_stops_at_page_end() {
    let mut writer = PagedWriter::new(Vec::new()).unwrap();
    writer.write_all(&[9; 1000]).unwrap();
    assert_eq!(writer.write(&[5; 100]).unwrap(), 20);
    assert_eq!(writer.physical_position().unwrap(), 1024);
    assert_eq!(writer.write(&[]).unwrap(), 0);
}

/// CRC-32C computed bit by bit, as the library's specification states it.
fn crc32c_bitwise(data: &[u8]) -> u32 {
    let mut c: u32 = 0xffff_ffff;
    for &b in data {
        c ^= b as u32;
        for _ in 0..8 {
            c = if c & 1 == 1 { (c >> 1) ^ 0x82f6_3b78 } else { c >> 1 };
        }
    }
    c ^ 0xffff_ffff
}

#[test]
fn page_checksums_are_crc32c() {
    assert_eq!(crc32c_bitwise(b"123456789"), 0xe306_9283);
    let mut writer = PagedWriter::new(Vec::new()).unwrap();
    let data: Vec<u8> = (0..PAGE_PAYLOAD_SIZE).map(|i| (i * 7 % 251) as u8).collect();
    writer.write_all(&data).unwrap();
    let content = writer.finish().unwrap();
    let expected = crc32c_bitwise(&content[..PAGE_PAYLOAD_SIZE]).to_be_bytes();
    assert_eq!(&content[PAGE_PAYLOAD_SIZE..PAGE_PAYLOAD_SIZE + 4], &expected);
    assert_eq!(crc32c_bitwise(&[1_u8; PAGE_PAYLOAD_SIZE]).to_be_bytes(), [25, 85, 144, 35]);
}
