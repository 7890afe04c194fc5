use e57::{
    ByteStreamReadBuffer, ByteStreamWriteBuffer, CompressedVectorSectionHeader, DataPacketHeader, Header, PacketHeader,
    PagedReader, PagedWriter,
};

#[test]
fn bits_read_back_as_written() {
    let mut w = ByteStreamWriteBuffer::new();
    w.add_bits(&[0b101], 3);
    w.add_bits(&[0xff, 0x01], 9);
    w.add_bits(&[0b0110], 4);
    let bytes = w.get_all_bytes();
    assert_eq!(bytes.len(), 2);
    let mut r = ByteStreamReadBuffer::new();
    r.append(&bytes);
    assert_eq!(r.extract(3).unwrap() & 0b111, 0b101);
    assert_eq!(r.extract(9).unwrap() & 0x1ff, 0x1ff);
    assert_eq!(r.extract(4).unwrap() & 0xf, 0b0110);
    assert_eq!(r.extract(1), None);
}

#[test]
fn headers_read_back_as_written() {
    let mut writer = PagedWriter::new(Vec::new()).unwrap();
    let cv = CompressedVectorSectionHeader { section_id: 1, section_length: 64, data_offset: 1056, index_offset: 0 };
    cv.write(&mut writer).unwrap();
    let data = DataPacketHeader { comp_restart_flag: true, packet_length: 8, bytestream_count: 3 };
    data.write(&mut writer).unwrap();
    let mut reader = PagedReader::new(writer.finish().unwrap(), 1024).unwrap();
    let back = CompressedVectorSectionHeader::read(&mut reader).unwrap();
    assert_eq!((back.section_length, back.data_offset, back.index_offset), (64, 1056, 0));
    match PacketHeader::read(&mut reader).unwrap() {
        PacketHeader::Data(h) => {
            assert!(h.comp_restart_flag);
            assert_eq!(h.packet_length, 8);
            assert_eq!(h.bytestream_count, 3);
        },
        _ => panic!("expected a data packet header"),
    }
}

#[test]
fn file_header_reads_back_as_written() {
    let mut writer = PagedWriter::new(Vec::new()).unwrap();
    let mut h = Header::default();
    h.phys_length = 4096;
    h.phys_xml_offset = 2048;
    h.xml_length = 100;
    h.write(&mut writer).unwrap();
    let file = writer.finish().unwrap();
    let back = Header::read(&file).unwrap();
    assert_eq!(back.phys_length, 4096);
    assert_eq!(back.phys_xml_offset, 2048);
    assert_eq!(back.xml_length, 100);
    assert_eq!(back.page_size, 1024);
}

#[test]
fn rejected_packet_headers_move_the_reader() {
    let mut writer = PagedWriter::new(Vec::new()).unwrap();
    writer.write_all(&[7, 1, 2, 3, 2, 9, 9, 9, 0, 0, 0, 0]).unwrap();
    let mut reader = PagedReader::new(writer.finish().unwrap(), 1024).unwrap();
    assert!(PacketHeader::read(&mut reader).is_err());
    // An unknown ID consumes one byte: the next byte starts the next read.
    assert!(PacketHeader::read(&mut reader).is_ok());
}
