use e57::{integer_limits, points_child, IndexBounds, PointCloudHead, XmlAttribute, XmlNode};

fn node(tag: &str, attrs: &[(&str, &str)], text: Option<&str>, children: Vec<XmlNode>) -> XmlNode {
    XmlNode {
        tag: tag.to_string(),
        attributes: attrs
            .iter()
            .map(|(n, v)| XmlAttribute { namespace: None, name: n.to_string(), value: v.to_string() })
            .collect(),
        namespaces: Vec::new(),
        text: text.map(|t| t.to_string()),
        children,
    }
}

fn string_node(tag: &str, value: &str) -> XmlNode {
    node(tag, &[("type", "String")], Some(value), Vec::new())
}

fn points_node(offset: &str, count: &str) -> XmlNode {
    node(
        "points",
        &[("type", "CompressedVector"), ("fileOffset", offset), ("recordCount", count)],
        None,
        vec![node("prototype", &[("type", "Structure")], None, Vec::new())],
    )
}

fn pointcloud_node(children: Vec<XmlNode>) -> XmlNode {
    node("vectorChild", &[("type", "Structure")], None, children)
}

#[test]
fn pointcloud_head_from_node() {
    let tree = pointcloud_node(vec![
        string_node("guid", "pc-guid"),
        string_node("name", "scan"),
        string_node("sensorVendor", "vendor"),
        node(
            "indexBounds",
            &[("type", "Structure")],
            None,
            vec![node("rowMaximum", &[("type", "Integer")], Some("9"), Vec::new())],
        ),
        points_node("48", "1234"),
    ]);
    let head = PointCloudHead::from_node(&tree).unwrap();
    assert_eq!(head.guid, "pc-guid");
    assert_eq!(head.name.as_deref(), Some("scan"));
    assert_eq!(head.description, None);
    assert_eq!(head.sensor_vendor.as_deref(), Some("vendor"));
    assert_eq!(head.file_offset, 48);
    assert_eq!(head.records, 1234);
    let bounds = head.index_bounds.unwrap();
    assert_eq!(bounds.row_max, Some(9));
    assert_eq!(bounds.row_min, None);
}

#[test]
fn pointcloud_head_needs_guid_and_points() {
    let no_guid = pointcloud_node(vec![points_node("48", "1")]);
    assert!(matches!(PointCloudHead::from_node(&no_guid), Err(e57::Error::Invalid { .. })));
    let no_points = pointcloud_node(vec![string_node("guid", "g")]);
    assert!(matches!(PointCloudHead::from_node(&no_points), Err(e57::Error::Invalid { .. })));
    let wrong_kind = pointcloud_node(vec![
        string_node("guid", "g"),
        node("points", &[("type", "Structure"), ("fileOffset", "1"), ("recordCount", "1")], None, Vec::new()),
    ]);
    assert!(points_child(&wrong_kind).is_none());
    assert!(PointCloudHead::from_node(&wrong_kind).is_err());
    let bad_count = pointcloud_node(vec![string_node("guid", "g"), points_node("48", "-1")]);
    assert!(PointCloudHead::from_node(&bad_count).is_err());
    let bad_name = pointcloud_node(vec![
        string_node("guid", "g"),
        node("name", &[("type", "Integer")], Some("1"), Vec::new()),
        points_node("48", "1"),
    ]);
    assert!(PointCloudHead::from_node(&bad_name).is_err());
}

fn head(guid: &str) -> PointCloudHead {
    PointCloudHead {
        guid: guid.to_string(),
        file_offset: 1024,
        records: 7,
        name: Some("n".to_string()),
        description: None,
        sensor_vendor: None,
        sensor_model: Some("m".to_string()),
        sensor_serial: None,
        sensor_hw_version: None,
        sensor_sw_version: None,
        sensor_fw_version: None,
        index_bounds: Some(IndexBounds::default()),
    }
}

#[test]
fn pointcloud_head_xml() {
    let h = head("abc");
    assert_eq!(
        h.xml_start().unwrap(),
        "<vectorChild type=\"Structure\">\n<guid type=\"String\"><![CDATA[abc]]></guid>\n"
    );
    assert_eq!(
        h.xml_strings(),
        "<name type=\"String\"><![CDATA[n]]></name>\n<sensorModel type=\"String\"><![CDATA[m]]></sensorModel>\n"
    );
    assert_eq!(
        h.xml_points(),
        "<points type=\"CompressedVector\" fileOffset=\"1024\" recordCount=\"7\">\n<prototype type=\"Structure\">\n"
    );
    assert!(matches!(head("").xml_start(), Err(e57::Error::Invalid { .. })));
}

#[test]
fn pointcloud_heads_from_data3d() {
    let data3d = node(
        "data3D",
        &[("type", "Vector")],
        None,
        vec![
            pointcloud_node(vec![string_node("guid", "a"), points_node("48", "1")]),
            node("other", &[], None, Vec::new()),
            node("vectorChild", &[("type", "Integer")], None, Vec::new()),
            pointcloud_node(vec![string_node("guid", "b"), points_node("1024", "2")]),
        ],
    );
    let heads = PointCloudHead::vec_from_data3d(&data3d).unwrap();
    assert_eq!(heads.len(), 2);
    assert_eq!(heads[0].guid, "a");
    assert_eq!(heads[1].records, 2);
    let broken = node("data3D", &[], None, vec![pointcloud_node(vec![string_node("guid", "a")])]);
    assert!(matches!(PointCloudHead::vec_from_data3d(&broken), Err(e57::Error::Invalid { .. })));
}

#[test]
fn integer_limits_from_node() {
    let ok = node("x", &[("type", "Integer"), ("minimum", "-5"), ("maximum", "5")], None, Vec::new());
    assert_eq!(integer_limits(&ok).unwrap(), (-5, 5));
    let equal = node("x", &[("minimum", "7"), ("maximum", "7")], None, Vec::new());
    assert_eq!(integer_limits(&equal).unwrap(), (7, 7));
    let reversed = node("x", &[("minimum", "8"), ("maximum", "7")], None, Vec::new());
    assert!(matches!(integer_limits(&reversed), Err(e57::Error::Invalid { .. })));
    let missing = node("x", &[("minimum", "8")], None, Vec::new());
    assert!(integer_limits(&missing).is_err());
    let bad = node("x", &[("minimum", "a"), ("maximum", "7")], None, Vec::new());
    assert!(integer_limits(&bad).is_err());
}
