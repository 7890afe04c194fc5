use e57::comp_vector;
use e57::{
    extract_xml, get_u64, raw_xml, validate_crc, Blob, BlobSectionHeader, CompressedVectorSectionHeader,
    DataPacketHeader, Error, Header, PacketHeader, PagedReader, PagedWriter, SeekFrom, MAX_XML_SIZE,
};

fn sample_header() -> Header {
    let mut h = Header::default();
    h.phys_length = 4096;
    h.phys_xml_offset = 2048;
    h.xml_length = 123;
    h
}

fn reader_over(bytes: &[u8]) -> PagedReader {
    let mut writer = PagedWriter::new(Vec::new()).unwrap();
    writer.write_all(bytes).unwrap();
    PagedReader::new(writer.finish().unwrap(), 1024).unwrap()
}

#[test]
fn header_bytes() {
    let bytes = sample_header().to_bytes();
    assert_eq!(bytes.len(), 48);
    assert_eq!(&bytes[0..8], b"ASTM-E57");
    assert_eq!(&bytes[8..12], &[1, 0, 0, 0]);
    assert_eq!(&bytes[12..16], &[0, 0, 0, 0]);
    assert_eq!(&bytes[16..24], &4096_u64.to_le_bytes());
    assert_eq!(&bytes[24..32], &2048_u64.to_le_bytes());
    assert_eq!(&bytes[32..40], &123_u64.to_le_bytes());
    assert_eq!(&bytes[40..48], &1024_u64.to_le_bytes());
}

#[test]
fn header_roundtrip() {
    let h = sample_header();
    let back = Header::read(&h.to_bytes()).unwrap();
    assert_eq!(back.signature, h.signature);
    assert_eq!(back.major, 1);
    assert_eq!(back.minor, 0);
    assert_eq!(back.phys_length, 4096);
    assert_eq!(back.phys_xml_offset, 2048);
    assert_eq!(back.xml_length, 123);
    assert_eq!(back.page_size, 1024);
}

#[test]
fn header_errors() {
    let bytes = sample_header().to_bytes();
    assert!(matches!(Header::read(&bytes[..47]), Err(Error::Read { .. })));
    let mut bad = bytes.clone();
    bad[0] = b'X';
    assert!(matches!(Header::read(&bad), Err(Error::Invalid { .. })));
    let mut bad = bytes.clone();
    bad[8] = 2;
    assert!(matches!(Header::read(&bad), Err(Error::Invalid { .. })));
    let mut bad = bytes.clone();
    bad[12] = 1;
    assert!(matches!(Header::read(&bad), Err(Error::Invalid { .. })));
    let mut bad = bytes;
    bad[41] = 8;
    assert!(matches!(Header::read(&bad), Err(Error::Invalid { .. })));
}

#[test]
fn header_written_through_pages() {
    let mut writer = PagedWriter::new(Vec::new()).unwrap();
    sample_header().write(&mut writer).unwrap();
    let file = writer.finish().unwrap();
    assert_eq!(file.len(), 1024);
    let h = Header::read(&file).unwrap();
    assert_eq!(h.xml_length, 123);
    assert_eq!(validate_crc(file.clone()).unwrap(), 1024);
    assert_eq!(get_u64(&file, 16).unwrap(), 4096);
    assert!(matches!(get_u64(&file, 1020), Err(Error::Read { .. })));
}

#[test]
fn crc_validation_detects_corruption() {
    let mut writer = PagedWriter::new(Vec::new()).unwrap();
    sample_header().write(&mut writer).unwrap();
    writer.write_all(&[7_u8; 2000]).unwrap();
    let mut file = writer.finish().unwrap();
    assert_eq!(file.len(), 3072);
    assert_eq!(validate_crc(file.clone()).unwrap(), 1024);
    file[1500] ^= 1;
    assert!(matches!(validate_crc(file), Err(Error::Read { .. })));
    assert!(matches!(validate_crc(vec![0_u8; 10]), Err(Error::Read { .. })));
}

#[test]
fn raw_xml_section() {
    let xml = b"<?xml version=\"1.0\"?><e57Root/>";
    let mut writer = PagedWriter::new(Vec::new()).unwrap();
    Header::default().write(&mut writer).unwrap();
    writer.align().unwrap();
    let xml_offset = writer.physical_position().unwrap();
    writer.write_all(xml).unwrap();
    let mut header = Header::default();
    header.phys_xml_offset = xml_offset;
    header.xml_length = xml.len() as u64;
    header.phys_length = writer.physical_size().unwrap();
    writer.physical_seek(0).unwrap();
    header.write(&mut writer).unwrap();
    let file = writer.finish().unwrap();

    assert_eq!(raw_xml(file.clone()).unwrap(), xml.to_vec());
    let mut reader = PagedReader::new(file, 1024).unwrap();
    assert_eq!(extract_xml(&mut reader, xml_offset, xml.len()).unwrap(), xml.to_vec());
    assert!(matches!(
        extract_xml(&mut reader, xml_offset, MAX_XML_SIZE + 1),
        Err(Error::NotImplemented { .. })
    ));
    assert!(matches!(extract_xml(&mut reader, 1_000_000, 10), Err(Error::Read { .. })));
}

#[test]
fn cv_section_header_roundtrip() {
    let mut h = CompressedVectorSectionHeader::default();
    assert_eq!(h.section_id, 1);
    h.section_length = 1024;
    h.data_offset = 80;
    h.index_offset = 0;
    let bytes = h.to_bytes();
    assert_eq!(bytes.len(), 32);
    assert_eq!(bytes[0], 1);
    assert_eq!(&bytes[1..8], &[0; 7]);
    assert_eq!(&bytes[8..16], &1024_u64.to_le_bytes());
    assert_eq!(&bytes[16..24], &80_u64.to_le_bytes());

    let mut writer = PagedWriter::new(Vec::new()).unwrap();
    h.write(&mut writer).unwrap();
    let mut reader = PagedReader::new(writer.finish().unwrap(), 1024).unwrap();
    let back = CompressedVectorSectionHeader::read(&mut reader).unwrap();
    assert_eq!(back.section_id, 1);
    assert_eq!(back.section_length, 1024);
    assert_eq!(back.data_offset, 80);
    assert_eq!(back.index_offset, 0);
}

#[test]
fn cv_section_header_errors() {
    let mut bytes = CompressedVectorSectionHeader::default().to_bytes();
    bytes[0] = 0;
    let mut reader = reader_over(&bytes);
    assert!(matches!(CompressedVectorSectionHeader::read(&mut reader), Err(Error::Invalid { .. })));

    let mut bytes = CompressedVectorSectionHeader::default().to_bytes();
    bytes[8] = 3;
    let mut reader = reader_over(&bytes);
    assert!(matches!(CompressedVectorSectionHeader::read(&mut reader), Err(Error::Invalid { .. })));

    let mut reader = reader_over(&[1_u8; 4]);
    reader.seek(SeekFrom::Start(1010)).unwrap();
    assert!(matches!(CompressedVectorSectionHeader::read(&mut reader), Err(Error::Read { .. })));
}

#[test]
fn comp_vector_section_header() {
    let mut h = comp_vector::CompressedVectorSectionHeader::default();
    h.section_length = 64;
    h.data_offset = 32;
    let mut writer = PagedWriter::new(Vec::new()).unwrap();
    h.write(&mut writer).unwrap();
    let mut reader = PagedReader::new(writer.finish().unwrap(), 1024).unwrap();
    let back = comp_vector::CompressedVectorSectionHeader::read(&mut reader).unwrap();
    assert_eq!(back.section_id, 1);
    assert_eq!(back.section_length, 64);
    assert_eq!(back.data_offset, 32);
    assert_eq!(comp_vector::CompressedVectorSectionHeader::SIZE, 32);
}

#[test]
fn data_packet_header_roundtrip() {
    let h = DataPacketHeader { comp_restart_flag: true, packet_length: 64, bytestream_count: 3 };
    let bytes = h.to_bytes();
    assert_eq!(bytes, vec![1, 1, 63, 0, 3, 0]);
    let mut reader = reader_over(&bytes);
    match PacketHeader::read(&mut reader).unwrap() {
        PacketHeader::Data(d) => {
            assert!(d.comp_restart_flag);
            assert_eq!(d.packet_length, 64);
            assert_eq!(d.bytestream_count, 3);
        },
        _ => panic!("expected data packet"),
    }
    let mut reader = reader_over(&bytes);
    match comp_vector::PacketHeader::from_reader(&mut reader).unwrap() {
        comp_vector::PacketHeader::Data { packet_length, bytestream_count, .. } => {
            assert_eq!(packet_length, 64);
            assert_eq!(bytestream_count, 3);
        },
        _ => panic!("expected data packet"),
    }
}

#[test]
fn index_and_ignored_packet_headers() {
    let mut index = vec![0_u8; 16];
    index[2] = 15; // length 16, stored minus one
    index[4] = 2; // entry count
    index[6] = 1; // index level
    let mut reader = reader_over(&index);
    match PacketHeader::read(&mut reader).unwrap() {
        PacketHeader::Index(h) => assert_eq!(h.packet_length, 16),
        _ => panic!("expected index packet"),
    }
    let mut reader = reader_over(&index);
    match comp_vector::PacketHeader::from_reader(&mut reader).unwrap() {
        comp_vector::PacketHeader::Index { packet_length, entry_count, index_level } => {
            assert_eq!(packet_length, 16);
            assert_eq!(entry_count, 2);
            assert_eq!(index_level, 1);
        },
        _ => panic!("expected index packet"),
    }

    let ignored = vec![2_u8, 0, 7, 0];
    let mut reader = reader_over(&ignored);
    match PacketHeader::read(&mut reader).unwrap() {
        PacketHeader::Ignored(h) => assert_eq!(h.packet_length, 8),
        _ => panic!("expected ignored packet"),
    }

    let mut reader = reader_over(&[3_u8, 0, 0, 0]);
    assert!(matches!(PacketHeader::read(&mut reader), Err(Error::Invalid { .. })));
    let mut reader = reader_over(&[3_u8, 0, 0, 0]);
    assert!(matches!(comp_vector::PacketHeader::from_reader(&mut reader), Err(Error::Invalid { .. })));

    // Unaligned packet length.
    let mut reader = reader_over(&[2_u8, 0, 6, 0]);
    assert!(matches!(PacketHeader::read(&mut reader), Err(Error::Invalid { .. })));
    // Data packet with a length that is no multiple of four.
    let mut reader = reader_over(&[1_u8, 0, 62, 0, 1, 0]);
    assert!(matches!(PacketHeader::read(&mut reader), Err(Error::Invalid { .. })));
}

#[test]
fn blob_section_header() {
    let mut bytes = [0_u8; 16];
    bytes[8] = 5;
    let h = BlobSectionHeader::from_array(&bytes).unwrap();
    assert_eq!(h.section_length, 5);
    bytes[0] = 1;
    assert!(matches!(BlobSectionHeader::from_array(&bytes), Err(Error::Invalid { .. })));
}

#[test]
fn blob_write_and_read() {
    let data: Vec<u8> = (0..3000_u32).map(|i| (i % 251) as u8).collect();
    let mut writer = PagedWriter::new(Vec::new()).unwrap();
    writer.write_all(&[0_u8; 48]).unwrap();
    let blob = Blob::write(&mut writer, &data).unwrap();
    assert_eq!(blob.offset, 48);
    assert_eq!(blob.length, 3000);
    let small = Blob::write(&mut writer, &[1, 2, 3]).unwrap();
    assert_eq!(small.length, 3);
    let file = writer.finish().unwrap();

    let mut reader = PagedReader::new(file, 1024).unwrap();
    assert_eq!(blob.read(&mut reader).unwrap(), data);
    assert_eq!(small.read(&mut reader).unwrap(), vec![1, 2, 3]);
    // The second blob starts on a 4-byte-aligned logical offset.
    assert_eq!((small.offset - (small.offset / 1024) * 4) % 4, 0);
}

#[test]
fn blob_read_errors() {
    let mut writer = PagedWriter::new(Vec::new()).unwrap();
    let blob = Blob::write(&mut writer, &[9_u8; 10]).unwrap();
    let file = writer.finish().unwrap();
    let mut reader = PagedReader::new(file, 1024).unwrap();
    let beyond = Blob { offset: 5000, length: 10 };
    assert!(beyond.read(&mut reader).is_err());
    // The bytes there are no blob section header.
    let wrong = Blob { offset: blob.offset + 16, length: 10 };
    assert!(matches!(wrong.read(&mut reader), Err(Error::Invalid { .. })));
    // Longer than the section and its header.
    let long = Blob { offset: blob.offset, length: 27 };
    assert!(matches!(long.read(&mut reader), Err(Error::Invalid { .. })));
    let exact = Blob { offset: blob.offset, length: 26 };
    assert_eq!(exact.read(&mut reader).unwrap().len(), 26);
}

#[test]
fn e57_file_extensions() {
    assert!(e57::is_e57_extension("e57"));
    assert!(e57::is_e57_extension("E57"));
    assert!(!e57::is_e57_extension("e5"));
    assert!(!e57::is_e57_extension("e570"));
    assert!(!e57::is_e57_extension("las"));
    assert!(!e57::is_e57_extension(""));
}
