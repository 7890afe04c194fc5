use e57::{
    parse_xml, read_file_contents, read_points, utf8_string, CompressedVectorWriter, Error, Header, PagedReader,
    PagedWriter, QueueReader, Record, RecordDataType, RecordName, RecordValue,
};

const XML: &str = "<?xml version=\"1.0\" encoding=\"UTF-8\"?>\n<e57Root type=\"Structure\" xmlns=\"http://www.astm.org/COMMIT/E57/2010-e57-v1.0\" xmlns:ext=\"http://example.com/ext\">\n<formatName type=\"String\"><![CDATA[ASTM E57 3D Imaging Data File]]></formatName>\n<guid type=\"String\"><![CDATA[file-guid]]></guid>\n<versionMajor type=\"Integer\">1</versionMajor>\n<versionMinor type=\"Integer\">0</versionMinor>\n<data3D type=\"Vector\">\n<vectorChild type=\"Structure\">\n<guid type=\"String\"><![CDATA[pc-guid]]></guid>\n<points type=\"CompressedVector\" fileOffset=\"1024\" recordCount=\"5\">\n<prototype type=\"Structure\"/>\n</points>\n</vectorChild>\n</data3D>\n</e57Root>\n";

fn file_with_xml(xml: &str) -> Vec<u8> {
    let mut w = PagedWriter::new(Vec::new()).unwrap();
    Header::default().write(&mut w).unwrap();
    let offset = w.physical_position().unwrap();
    w.write_all(xml.as_bytes()).unwrap();
    let length = w.physical_size().unwrap();
    let mut header = Header::default();
    header.phys_xml_offset = offset;
    header.xml_length = xml.len() as u64;
    header.phys_length = length;
    w.physical_seek(0).unwrap();
    header.write(&mut w).unwrap();
    w.finish().unwrap()
}

#[test]
fn file_contents_read_back() {
    let contents = read_file_contents(file_with_xml(XML)).unwrap();
    assert_eq!(contents.header.xml_length, XML.len() as u64);
    assert_eq!(contents.xml, XML);
    assert_eq!(contents.root.guid, "file-guid");
    assert_eq!(contents.root.format, "ASTM E57 3D Imaging Data File");
    assert_eq!(contents.root.major_version, 1);
    assert_eq!(contents.root.minor_version, 0);
    assert_eq!(contents.extensions.len(), 1);
    assert_eq!(contents.extensions[0].namespace, "ext");
    assert_eq!(contents.extensions[0].url, "http://example.com/ext");
    assert_eq!(contents.pointclouds.len(), 1);
    assert_eq!(contents.pointclouds[0].guid, "pc-guid");
    assert_eq!(contents.pointclouds[0].file_offset, 1024);
    assert_eq!(contents.pointclouds[0].records, 5);
}

#[test]
fn file_contents_errors() {
    assert!(matches!(read_file_contents(vec![0_u8; 20]), Err(Error::Read { .. })));
    assert!(matches!(read_file_contents(vec![0_u8; 1024]), Err(Error::Invalid { .. })));
    assert!(matches!(read_file_contents(file_with_xml("<e57Root>")), Err(Error::Invalid { .. })));
    let no_data3d = XML.replace("data3D", "images2D");
    assert!(matches!(read_file_contents(file_with_xml(&no_data3d)), Err(Error::Invalid { .. })));
}

#[test]
fn xml_parsed_into_element_tree() {
    let tree = parse_xml("<a x=\"1\" xmlns:p=\"http://p\" p:y=\"2\">text<!-- c --><b/><c><d/></c></a>").unwrap();
    assert_eq!(tree.tag, "a");
    assert_eq!(tree.text.as_deref(), Some("text"));
    assert_eq!(tree.attributes.len(), 2);
    assert_eq!(tree.attribute("x"), Some("1"));
    assert_eq!(tree.attribute("y"), None);
    assert!(tree.attributes.iter().any(|a| a.name == "y" && a.namespace.as_deref() == Some("http://p")));
    assert_eq!(tree.namespaces.iter().filter(|n| n.name.as_deref() == Some("p")).count(), 1);
    assert_eq!(tree.children.len(), 2);
    assert_eq!(tree.children[0].tag, "b");
    assert_eq!(tree.children[1].tag, "c");
    assert_eq!(tree.children[1].children.len(), 1);
    assert_eq!(tree.children[1].children[0].tag, "d");
    assert!(parse_xml("<a><b></a>").is_none());
    assert_eq!(utf8_string(vec![b'h', b'i']).as_deref(), Some("hi"));
    assert!(utf8_string(vec![0xff, 0xfe]).is_none());
}

#[test]
fn points_read_as_written() {
    let prototype = vec![
        Record { name: RecordName::CartesianX, data_type: RecordDataType::Integer { min: 0, max: 1000 } },
        Record { name: RecordName::CartesianY, data_type: RecordDataType::Integer { min: -5, max: 5 } },
        Record { name: RecordName::CartesianZ, data_type: RecordDataType::Integer { min: 7, max: 7 } },
    ];
    let mut writer = PagedWriter::new(Vec::new()).unwrap();
    writer.write_all(&[0_u8; 48]).unwrap();
    let mut cv = CompressedVectorWriter::new(&mut writer, prototype.clone()).unwrap();
    let points: Vec<Vec<RecordValue>> =
        (0..3000).map(|i| vec![RecordValue::Integer(i % 1001), RecordValue::Integer(i % 11 - 5), RecordValue::Integer(7)]).collect();
    for p in &points {
        cv.add_point(&mut writer, p.clone()).unwrap();
    }
    cv.finalize(&mut writer).unwrap();
    let offset = cv.section_offset();
    let mut reader = PagedReader::new(writer.finish().unwrap(), 1024).unwrap();
    let mut queues = QueueReader::new(prototype, offset, &mut reader).unwrap();
    let read = read_points(&mut queues, &mut reader, 3000).unwrap();
    assert_eq!(read, points);
    assert_eq!(queues.available(), 0);
}
