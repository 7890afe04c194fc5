use e57::{
    gen_float, gen_int, gen_string, i64_to_decimal, opt_int, opt_string, req_int, req_string, str_to_i64,
    str_to_u64, u64_to_decimal, Blob, Error, Extension, ImageBlob, ImageFormat, IndexBounds, VisualReferenceImage,
    VisualReferenceImageProperties, XmlAttribute, XmlNamespace, XmlNode,
};

fn node(tag: &str, attrs: &[(&str, &str)], text: Option<&str>, children: Vec<XmlNode>) -> XmlNode {
    XmlNode {
        tag: tag.to_string(),
        attributes: attrs
            .iter()
            .map(|(n, v)| XmlAttribute { namespace: None, name: n.to_string(), value: v.to_string() })
            .collect(),
        namespaces: Vec::new(),
        text: text.map(|t| t.to_string()),
        children,
    }
}

fn int_node(tag: &str, value: &str) -> XmlNode {
    node(tag, &[("type", "Integer")], Some(value), Vec::new())
}

fn blob_node(tag: &str, offset: &str, length: &str) -> XmlNode {
    node(tag, &[("type", "Blob"), ("fileOffset", offset), ("length", length)], None, Vec::new())
}

#[test]
fn decimal_text() {
    assert_eq!(u64_to_decimal(0), "0");
    assert_eq!(u64_to_decimal(10), "10");
    assert_eq!(u64_to_decimal(u64::MAX), "18446744073709551615");
    assert_eq!(i64_to_decimal(0), "0");
    assert_eq!(i64_to_decimal(-42), "-42");
    assert_eq!(i64_to_decimal(i64::MIN), "-9223372036854775808");
    assert_eq!(i64_to_decimal(i64::MAX), "9223372036854775807");
}

#[test]
fn generated_elements() {
    assert_eq!(gen_string("name", "abc"), "<name type=\"String\"><![CDATA[abc]]></name>\n");
    assert_eq!(gen_float("x", "1.5"), "<x type=\"Float\">1.5</x>\n");
    assert_eq!(gen_int("n", -7), "<n type=\"Integer\">-7</n>\n");
    assert_eq!(gen_int("n", 1234), "<n type=\"Integer\">1234</n>\n");
}

#[test]
fn parse_signed_integers() {
    assert_eq!(str_to_i64("0"), Some(0));
    assert_eq!(str_to_i64("-0"), Some(0));
    assert_eq!(str_to_i64("+5"), Some(5));
    assert_eq!(str_to_i64("-9223372036854775808"), Some(i64::MIN));
    assert_eq!(str_to_i64("9223372036854775807"), Some(i64::MAX));
    assert_eq!(str_to_i64("9223372036854775808"), None);
    assert_eq!(str_to_i64(""), None);
    assert_eq!(str_to_i64("-"), None);
    assert_eq!(str_to_i64("12a"), None);
    assert_eq!(str_to_i64(" 1"), None);
}

#[test]
fn parse_unsigned_integers() {
    assert_eq!(str_to_u64("0"), Some(0));
    assert_eq!(str_to_u64("+7"), Some(7));
    assert_eq!(str_to_u64("18446744073709551615"), Some(u64::MAX));
    assert_eq!(str_to_u64("18446744073709551616"), None);
    assert_eq!(str_to_u64("-1"), None);
    assert_eq!(str_to_u64(""), None);
}

#[test]
fn decimal_roundtrip_values() {
    for v in [0_i64, 1, -1, 99, -100, i64::MIN, i64::MAX] {
        assert_eq!(str_to_i64(&i64_to_decimal(v)), Some(v));
    }
    for v in [0_u64, 9, 10, u64::MAX] {
        assert_eq!(str_to_u64(&u64_to_decimal(v)), Some(v));
    }
}

#[test]
fn read_strings_and_integers() {
    let parent = node(
        "root",
        &[],
        None,
        vec![
            node("name", &[("type", "String")], Some("scan 1"), Vec::new()),
            node("empty", &[("type", "String")], None, Vec::new()),
            node("wrong", &[("type", "Integer")], Some("5"), Vec::new()),
            int_node("count", "-12"),
            int_node("bad", "1.5"),
            int_node("missing_text_is_zero", ""),
            node("untyped", &[], Some("1"), Vec::new()),
        ],
    );
    assert_eq!(opt_string(&parent, "name").unwrap(), Some("scan 1".to_string()));
    assert_eq!(opt_string(&parent, "empty").unwrap(), Some(String::new()));
    assert_eq!(opt_string(&parent, "nothing").unwrap(), None);
    assert!(matches!(opt_string(&parent, "wrong"), Err(Error::Invalid { .. })));
    assert!(matches!(opt_string(&parent, "untyped"), Err(Error::Invalid { .. })));
    assert_eq!(req_string(&parent, "name").unwrap(), "scan 1");
    assert!(matches!(req_string(&parent, "nothing"), Err(Error::Invalid { .. })));

    assert_eq!(opt_int(&parent, "count").unwrap(), Some(-12));
    assert_eq!(opt_int(&parent, "nothing").unwrap(), None);
    assert!(matches!(opt_int(&parent, "bad"), Err(Error::Invalid { .. })));
    assert!(matches!(opt_int(&parent, "name"), Err(Error::Invalid { .. })));
    assert_eq!(req_int(&parent, "count").unwrap(), -12);
    assert!(matches!(req_int(&parent, "nothing"), Err(Error::Invalid { .. })));
}

#[test]
fn integer_element_without_text_is_zero() {
    let parent = node("root", &[], None, vec![node("n", &[("type", "Integer")], None, Vec::new())]);
    assert_eq!(req_int(&parent, "n").unwrap(), 0);
}

#[test]
fn index_bounds_xml() {
    let empty = IndexBounds::default();
    assert_eq!(empty.xml_string(), "<indexBounds type=\"Structure\">\n</indexBounds>\n");
    let bounds = IndexBounds {
        row_min: Some(0),
        row_max: Some(10),
        column_min: None,
        column_max: Some(-3),
        return_min: None,
        return_max: None,
    };
    assert_eq!(
        bounds.xml_string(),
        "<indexBounds type=\"Structure\">\n<rowMinimum type=\"Integer\">0</rowMinimum>\n\
         <rowMaximum type=\"Integer\">10</rowMaximum>\n\
         <columnMaximum type=\"Integer\">-3</columnMaximum>\n</indexBounds>\n"
    );
}

#[test]
fn index_bounds_from_node() {
    let n = node(
        "indexBounds",
        &[("type", "Structure")],
        None,
        vec![int_node("rowMinimum", "1"), int_node("rowMaximum", "5"), int_node("returnMaximum", "2")],
    );
    let b = IndexBounds::from_node(&n).unwrap();
    assert_eq!(b.row_min, Some(1));
    assert_eq!(b.row_max, Some(5));
    assert_eq!(b.column_min, None);
    assert_eq!(b.column_max, None);
    assert_eq!(b.return_min, None);
    assert_eq!(b.return_max, Some(2));

    let bad = node("indexBounds", &[], None, vec![int_node("columnMinimum", "x")]);
    assert!(matches!(IndexBounds::from_node(&bad), Err(Error::Invalid { .. })));
}

#[test]
fn blob_xml_and_node() {
    let blob = Blob { offset: 1024, length: 77 };
    assert_eq!(
        blob.xml_string("pngImage"),
        "<pngImage type=\"Blob\" fileOffset=\"1024\" length=\"77\"/>\n"
    );
    let b = Blob::from_node(&blob_node("pngImage", "1024", "77")).unwrap();
    assert_eq!(b.offset, 1024);
    assert_eq!(b.length, 77);
    assert!(matches!(Blob::from_node(&blob_node("x", "-1", "77")), Err(Error::Invalid { .. })));
    assert!(matches!(
        Blob::from_node(&node("x", &[("type", "Blob"), ("length", "1")], None, Vec::new())),
        Err(Error::Invalid { .. })
    ));
    assert!(matches!(
        Blob::from_node(&node("x", &[("type", "Integer"), ("fileOffset", "1"), ("length", "1")], None, Vec::new())),
        Err(Error::Invalid { .. })
    ));

    let parent = node("rep", &[], None, vec![blob_node("imageMask", "48", "16")]);
    let mask = Blob::from_parent_node("imageMask", &parent).unwrap().unwrap();
    assert_eq!(mask.offset, 48);
    assert_eq!(mask.length, 16);
    assert!(Blob::from_parent_node("other", &parent).unwrap().is_none());
}

#[test]
fn visual_reference_image_xml() {
    let img = VisualReferenceImage {
        blob: ImageBlob { data: Blob { offset: 48, length: 100 }, format: ImageFormat::Jpeg },
        properties: VisualReferenceImageProperties { width: 640, height: 480 },
        mask: Some(Blob { offset: 2048, length: 10 }),
    };
    assert_eq!(
        img.xml_string(),
        "<visualReferenceRepresentation type=\"Structure\">\n\
         <jpegImage type=\"Blob\" fileOffset=\"48\" length=\"100\"/>\n\
         <imageMask type=\"Blob\" fileOffset=\"2048\" length=\"10\"/>\n\
         <imageWidth type=\"Integer\">640</imageWidth>\n\
         <imageHeight type=\"Integer\">480</imageHeight>\n\
         </visualReferenceRepresentation>\n"
    );
}

#[test]
fn visual_reference_image_from_node() {
    let n = node(
        "visualReferenceRepresentation",
        &[("type", "Structure")],
        None,
        vec![
            blob_node("pngImage", "48", "100"),
            int_node("imageWidth", "640"),
            int_node("imageHeight", "480"),
        ],
    );
    let img = VisualReferenceImage::from_node(&n).unwrap();
    assert_eq!(img.blob.format, ImageFormat::Png);
    assert_eq!(img.blob.data.offset, 48);
    assert_eq!(img.blob.data.length, 100);
    assert!(img.mask.is_none());
    assert_eq!(img.properties.width, 640);
    assert_eq!(img.properties.height, 480);

    let too_wide = node(
        "visualReferenceRepresentation",
        &[],
        None,
        vec![blob_node("pngImage", "48", "100"), int_node("imageWidth", "-1"), int_node("imageHeight", "480")],
    );
    assert!(matches!(VisualReferenceImage::from_node(&too_wide), Err(Error::Invalid { .. })));

    let no_image = node("visualReferenceRepresentation", &[], None, vec![int_node("imageWidth", "1")]);
    assert!(matches!(ImageBlob::from_rep_node(&no_image), Err(Error::Invalid { .. })));
}

#[test]
fn extensions_from_document() {
    let mut root = node("e57Root", &[], None, Vec::new());
    root.namespaces.push(XmlNamespace { name: None, uri: "http://www.astm.org/COMMIT/E57/2010-e57-v1.0".into() });
    root.namespaces.push(XmlNamespace { name: Some("ext".into()), uri: "http://example.com/ext".into() });
    let exts = Extension::vec_from_document(&root);
    assert_eq!(exts.len(), 1);
    assert_eq!(exts[0].namespace, "ext");
    assert_eq!(exts[0].url, "http://example.com/ext");
}

#[test]
fn root_values() {
    let string = |tag: &str, text: &str| node(tag, &[("type", "String")], Some(text), Vec::new());
    let root = node(
        "e57Root",
        &[],
        None,
        vec![
            string("formatName", "ASTM E57 3D Imaging Data File"),
            string("guid", "abc"),
            int_node("versionMajor", "1"),
            int_node("versionMinor", "0"),
            string("e57LibraryVersion", "lib 1"),
        ],
    );
    let r = e57::Root::from_node(&root).unwrap();
    assert_eq!(r.format, "ASTM E57 3D Imaging Data File");
    assert_eq!(r.guid, "abc");
    assert_eq!(r.major_version, 1);
    assert_eq!(r.minor_version, 0);
    assert_eq!(r.library_version.as_deref(), Some("lib 1"));
    assert_eq!(r.coordinate_metadata, None);

    let no_guid = node("e57Root", &[], None, vec![string("formatName", "x"), int_node("versionMajor", "1")]);
    assert!(matches!(e57::Root::from_node(&no_guid), Err(Error::Invalid { .. })));
}

#[test]
fn root_xml_head() {
    let root = e57::Root {
        format: "ASTM E57 3D Imaging Data File".to_string(),
        guid: "g1".to_string(),
        major_version: 1,
        minor_version: 0,
        library_version: None,
        coordinate_metadata: Some("WGS84".to_string()),
    };
    let exts = vec![Extension::new("ext", "http://example.com/ext")];
    assert_eq!(
        root.xml_head(&exts).unwrap(),
        "<?xml version=\"1.0\" encoding=\"UTF-8\"?>\n\
         <e57Root type=\"Structure\" xmlns=\"http://www.astm.org/COMMIT/E57/2010-e57-v1.0\" xmlns:ext=\"http://example.com/ext\">\n\
         <formatName type=\"String\"><![CDATA[ASTM E57 3D Imaging Data File]]></formatName>\n\
         <guid type=\"String\"><![CDATA[g1]]></guid>\n\
         <versionMajor type=\"Integer\">1</versionMajor>\n\
         <versionMinor type=\"Integer\">0</versionMinor>\n\
         <coordinateMetadata type=\"String\"><![CDATA[WGS84]]></coordinateMetadata>\n"
    );
    let empty = e57::Root { guid: String::new(), ..root };
    assert!(matches!(empty.xml_head(&[]), Err(Error::Invalid { .. })));
}
