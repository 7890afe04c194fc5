use e57::{PagedReader, PagedWriter, SeekFrom};

const PAGE_SIZE: u64 = 1024;

fn read_to_end(reader: &mut PagedReader, buf: &mut Vec<u8>) -> e57::Result<usize> {
    let mut total = 0;
    loop {
        let chunk = reader.read(4096)?;
        if chunk.is_empty() {
            return Ok(total);
        }
        total += chunk.len();
        buf.extend_from_slice(&chunk);
    }
}

#[test]
fn zero_pages() {
    let file = Vec::<u8>::new();
    assert!(PagedReader::new(file, PAGE_SIZE).is_err());
}

#[test]
fn corrupt_page() {
    let data = vec![0_u8; 128];
    let mut reader = PagedReader::new(data, 128).unwrap();

    let mut buf = Vec::new();
    assert!(read_to_end(&mut reader, &mut buf).is_err());
    assert_eq!(buf.len(), 0);
}

#[test]
fn paged_reader_align() {
    let data = vec![0_u8; 128];
    let mut reader = PagedReader::new(data, 128).unwrap();

    let pos = reader.align().unwrap();
    assert_eq!(pos, 0);

    reader.seek(SeekFrom::Start(1)).unwrap();
    let pos = reader.align().unwrap();
    assert_eq!(pos, 4);

    let pos = reader.align().unwrap();
    assert_eq!(pos, 4);
}

#[test]
fn size_must_be_multiple_of_page_and_page_bigger_than_checksum() {
    assert!(PagedReader::new(vec![0_u8; 1024], 1023).is_err());
    assert!(PagedReader::new(vec![0_u8; 1024], 4).is_err());
    assert!(matches!(
        PagedReader::new(vec![0_u8; 1024], 4),
        Err(e57::Error::Read { .. })
    ));
}

fn two_page_file() -> Vec<u8> {
    let mut writer = PagedWriter::new(Vec::new()).unwrap();
    let data: Vec<u8> = (0..2040).map(|i| (i % 251) as u8).collect();
    writer.write_all(&data).unwrap();
    writer.finish().unwrap()
}

#[test]
fn reads_back_written_pages() {
    let file = two_page_file();
    assert_eq!(file.len(), 2048);
    let mut reader = PagedReader::new(file, PAGE_SIZE).unwrap();
    let mut buf = Vec::new();
    assert_eq!(read_to_end(&mut reader, &mut buf).unwrap(), 2040);
    let expected: Vec<u8> = (0..2040).map(|i| (i % 251) as u8).collect();
    assert_eq!(buf, expected);
}

#[test]
fn seek_and_physical_seek() {
    let file = two_page_file();
    let mut reader = PagedReader::new(file, PAGE_SIZE).unwrap();
    assert_eq!(reader.seek(SeekFrom::End(0)).unwrap(), 2040);
    assert_eq!(reader.seek(SeekFrom::Current(-10)).unwrap(), 2030);
    assert!(reader.seek(SeekFrom::Current(11)).is_err());
    assert!(reader.seek(SeekFrom::End(-2041)).is_err());
    assert_eq!(reader.seek(SeekFrom::Start(0)).unwrap(), 0);

    // Physical offset 1030 lies in the second page, six bytes into its payload.
    assert_eq!(reader.seek_physical(1030).unwrap(), 1026);
    assert_eq!(reader.read_exact(2).unwrap(), vec![(1026 % 251) as u8, (1027 % 251) as u8]);
    assert!(reader.seek_physical(2048).is_err());

    // Reading across the page boundary.
    reader.seek(SeekFrom::Start(1018)).unwrap();
    assert_eq!(reader.read_exact(4).unwrap(), vec![(1018 % 251) as u8, (1019 % 251) as u8, (1020 % 251) as u8, (1021 % 251) as u8]);
}

#[test]
fn read_end_and_exact_past_end() {
    let file = two_page_file();
    let mut reader = PagedReader::new(file, PAGE_SIZE).unwrap();
    reader.seek(SeekFrom::End(0)).unwrap();
    let mut buffer = Vec::new();
    assert_eq!(read_to_end(&mut reader, &mut buffer).unwrap(), 0);
    reader.seek(SeekFrom::End(-3)).unwrap();
    assert!(reader.read_exact(4).is_err());
}

#[test]
fn corrupt_checksum_is_detected_only_in_its_page() {
    let mut file = two_page_file();
    file[1024 + 5] ^= 0xff;
    let mut reader = PagedReader::new(file, PAGE_SIZE).unwrap();
    assert_eq!(reader.read_exact(1020).unwrap().len(), 1020);
    assert!(reader.read_exact(1).is_err());
}
