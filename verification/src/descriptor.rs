use crate::bounds::{opt_int_ok, opt_int_value, IndexBounds};
use crate::error::{Error, Result};
use crate::root::{opt_string_element, opt_text_is, string_ok, string_text};
use crate::xml::{decimal, gen_string, string_element, u64_to_decimal};
use crate::xml_node::XmlNode;
use crate::xml_read::{has_type, opt_string, parse_i64, parse_u64, req_string, str_to_i64, str_to_u64};
use vstd::prelude::*;
use vstd::string::StringExecFns;

verus! {

/// The parts of a point cloud descriptor that hold no floating point values: its GUID, the
/// location and number of its points, its optional names and sensor strings, and its optional
/// index bounds.
#[derive(Debug)]
pub struct PointCloudHead {
    /// Globally unique identifier of the point cloud.
    pub guid: String,
    /// Physical offset of the compressed vector section of the points.
    pub file_offset: u64,
    /// Number of points.
    pub records: u64,
    /// Optional user-defined name.
    pub name: Option<String>,
    /// Optional user-defined description.
    pub description: Option<String>,
    /// Optional name of the manufacturer of the sensor.
    pub sensor_vendor: Option<String>,
    /// Optional model name of the sensor.
    pub sensor_model: Option<String>,
    /// Optional serial number of the sensor.
    pub sensor_serial: Option<String>,
    /// Optional version of the sensor hardware.
    pub sensor_hw_version: Option<String>,
    /// Optional version of the sensor software.
    pub sensor_sw_version: Option<String>,
    /// Optional version of the sensor firmware.
    pub sensor_fw_version: Option<String>,
    /// Optional bounds of the row, column and return indices.
    pub index_bounds: Option<IndexBounds>,
}

/// The element holds the points of a point cloud: its tag is `points` and its type
/// `CompressedVector`.
pub open spec fn is_points(node: XmlNode) -> bool {
    node.tag@ == "points"@ && has_type(node, "CompressedVector"@)
}

/// Index `i` holds the first child element that holds points.
pub open spec fn first_points(node: XmlNode, i: int) -> bool {
    &&& 0 <= i < node.children@.len()
    &&& is_points(node.children@[i])
    &&& forall|j: int| 0 <= j < i ==> !is_points(#[trigger] node.children@[j])
}

/// The first child element that holds points.
pub open spec fn points_of(node: XmlNode) -> Option<XmlNode> {
    if exists|i: int| 0 <= i < node.children@.len() && is_points(#[trigger] node.children@[i]) {
        Some(node.children@[choose|i: int| first_points(node, i)])
    } else {
        None
    }
}

/// The value of the attribute with the given name read as a `u64`, where there is one.
pub open spec fn attribute_u64(node: XmlNode, name: Seq<char>) -> Option<u64> {
    match node.attribute_of(name) {
        Some(t) => parse_u64(t),
        None => None,
    }
}

/// The optional index bounds element reads: it is missing, or each of its integers reads.
pub open spec fn index_bounds_ok(node: XmlNode) -> bool {
    match node.child_of("indexBounds"@) {
        None => true,
        Some(c) => opt_int_ok(c, "rowMinimum"@) && opt_int_ok(c, "rowMaximum"@) && opt_int_ok(c, "columnMinimum"@)
            && opt_int_ok(c, "columnMaximum"@) && opt_int_ok(c, "returnMinimum"@) && opt_int_ok(
            c,
            "returnMaximum"@,
        ),
    }
}

/// The elements of a point cloud descriptor read: a GUID string, optional strings of type
/// `String`, optional index bounds that read, and a `points` child with a `fileOffset` and a
/// `recordCount` that are `u64` numbers.
pub open spec fn head_ok(node: XmlNode) -> bool {
    &&& string_text(node, "guid"@) is Some
    &&& string_ok(node, "guid"@)
    &&& string_ok(node, "name"@)
    &&& string_ok(node, "description"@)
    &&& string_ok(node, "sensorModel"@)
    &&& string_ok(node, "sensorVendor"@)
    &&& string_ok(node, "sensorSerialNumber"@)
    &&& string_ok(node, "sensorHardwareVersion"@)
    &&& string_ok(node, "sensorSoftwareVersion"@)
    &&& string_ok(node, "sensorFirmwareVersion"@)
    &&& index_bounds_ok(node)
    &&& points_of(node) is Some
    &&& attribute_u64(points_of(node).unwrap(), "fileOffset"@) is Some
    &&& attribute_u64(points_of(node).unwrap(), "recordCount"@) is Some
}

/// The descriptor holds the values that the elements of the node give.
pub open spec fn head_read(node: XmlNode, h: PointCloudHead) -> bool {
    &&& Some(h.guid@) == string_text(node, "guid"@)
    &&& opt_text_is(h.name, string_text(node, "name"@))
    &&& opt_text_is(h.description, string_text(node, "description"@))
    &&& opt_text_is(h.sensor_model, string_text(node, "sensorModel"@))
    &&& opt_text_is(h.sensor_vendor, string_text(node, "sensorVendor"@))
    &&& opt_text_is(h.sensor_serial, string_text(node, "sensorSerialNumber"@))
    &&& opt_text_is(h.sensor_hw_version, string_text(node, "sensorHardwareVersion"@))
    &&& opt_text_is(h.sensor_sw_version, string_text(node, "sensorSoftwareVersion"@))
    &&& opt_text_is(h.sensor_fw_version, string_text(node, "sensorFirmwareVersion"@))
    &&& match node.child_of("indexBounds"@) {
        None => h.index_bounds is None,
        Some(c) => h.index_bounds matches Some(b) && b.row_min == opt_int_value(c, "rowMinimum"@) && b.row_max
            == opt_int_value(c, "rowMaximum"@) && b.column_min == opt_int_value(c, "columnMinimum"@)
            && b.column_max == opt_int_value(c, "columnMaximum"@) && b.return_min == opt_int_value(
            c,
            "returnMinimum"@,
        ) && b.return_max == opt_int_value(c, "returnMaximum"@),
    }
    &&& Some(h.file_offset) == attribute_u64(points_of(node).unwrap(), "fileOffset"@)
    &&& Some(h.records) == attribute_u64(points_of(node).unwrap(), "recordCount"@)
}

/// The first child element that holds points.
pub fn points_child(node: &XmlNode) -> (r: Option<&XmlNode>)
    ensures
        match r {
            Some(c) => points_of(*node) == Some(*c),
            None => points_of(*node) is None,
        },
{
    let mut i: usize = 0;
    while i < node.children.len()
        invariant
            i <= node.children@.len(),
            forall|j: int| 0 <= j < i ==> !is_points(#[trigger] node.children@[j]),
        decreases node.children@.len() - i,
    {
        let c = &node.children[i];
        let is_tag = crate::text::str_eq(c.tag.as_str(), "points");
        let kind = c.attribute("type");
        let is_kind = match kind {
            Some(k) => crate::text::str_eq(k, "CompressedVector"),
            None => false,
        };
        if is_tag && is_kind {
            proof {
                assert(is_points(node.children@[i as int]));
                let m = choose|m: int| first_points(*node, m);
                assert(first_points(*node, i as int));
                if m < i {
                    assert(!is_points(node.children@[m]));
                } else if m > i {
                    assert(is_points(node.children@[i as int]));
                }
            }
            return Some(c);
        }
        assert(!is_points(node.children@[i as int]));
        i = i + 1;
    }
    None
}

/// Reads the attribute with the given name as a `u64`.
fn u64_attribute(node: &XmlNode, name: &str) -> (r: Result<u64>)
    ensures
        match attribute_u64(*node, name@) {
            Some(v) => r == Ok::<u64, Error>(v),
            None => r matches Err(e) && e is Invalid,
        },
{
    match node.attribute(name) {
        Some(text) => match str_to_u64(text) {
            Some(v) => Ok(v),
            None => Err(
                Error::Invalid {
                    desc: String::from_str("Cannot parse '").concat(name).concat("' attribute value as u64"),
                },
            ),
        },
        None => Err(
            Error::Invalid {
                desc: String::from_str("Cannot find '").concat(name).concat("' attribute in 'points' tag"),
            },
        ),
    }
}

impl PointCloudHead {
    /// Reads the parts of a point cloud descriptor that hold no floating point values from
    /// its XML element.
    pub fn from_node(node: &XmlNode) -> (r: Result<Self>)
        ensures
            r is Ok <==> head_ok(*node),
            r matches Ok(h) ==> head_read(*node, h),
            r matches Err(e) ==> e is Invalid,
    {
        let guid = match req_string(node, "guid") {
            Ok(v) => v,
            Err(e) => {
                return Err(e);
            },
        };
        let name = match opt_string(node, "name") {
            Ok(v) => v,
            Err(e) => {
                return Err(e);
            },
        };
        let description = match opt_string(node, "description") {
            Ok(v) => v,
            Err(e) => {
                return Err(e);
            },
        };
        let sensor_model = match opt_string(node, "sensorModel") {
            Ok(v) => v,
            Err(e) => {
                return Err(e);
            },
        };
        let sensor_vendor = match opt_string(node, "sensorVendor") {
            Ok(v) => v,
            Err(e) => {
                return Err(e);
            },
        };
        let sensor_serial = match opt_string(node, "sensorSerialNumber") {
            Ok(v) => v,
            Err(e) => {
                return Err(e);
            },
        };
        let sensor_hw_version = match opt_string(node, "sensorHardwareVersion") {
            Ok(v) => v,
            Err(e) => {
                return Err(e);
            },
        };
        let sensor_sw_version = match opt_string(node, "sensorSoftwareVersion") {
            Ok(v) => v,
            Err(e) => {
                return Err(e);
            },
        };
        let sensor_fw_version = match opt_string(node, "sensorFirmwareVersion") {
            Ok(v) => v,
            Err(e) => {
                return Err(e);
            },
        };
        let index_bounds = match node.child("indexBounds") {
            Some(n) => match IndexBounds::from_node(n) {
                Ok(b) => Some(b),
                Err(e) => {
                    return Err(e);
                },
            },
            None => None,
        };
        let points = match points_child(node) {
            Some(p) => p,
            None => {
                return Error::invalid("Cannot find 'points' tag inside 'data3D' child");
            },
        };
        let file_offset = match u64_attribute(points, "fileOffset") {
            Ok(v) => v,
            Err(e) => {
                return Err(e);
            },
        };
        let records = match u64_attribute(points, "recordCount") {
            Ok(v) => v,
            Err(e) => {
                return Err(e);
            },
        };
        Ok(
            PointCloudHead {
                guid,
                file_offset,
                records,
                name,
                description,
                sensor_vendor,
                sensor_model,
                sensor_serial,
                sensor_hw_version,
                sensor_sw_version,
                sensor_fw_version,
                index_bounds,
            },
        )
    }
}

/// The opening of a point cloud element with its GUID.
pub open spec fn head_start(h: PointCloudHead) -> Seq<char> {
    "<vectorChild type=\"Structure\">\n"@ + string_element("guid"@, h.guid@)
}

/// The string elements of the names and the sensor, in the order the descriptor writes them.
pub open spec fn head_strings(h: PointCloudHead) -> Seq<char> {
    opt_string_element("name"@, h.name) + opt_string_element("description"@, h.description)
        + opt_string_element("sensorVendor"@, h.sensor_vendor) + opt_string_element(
        "sensorModel"@,
        h.sensor_model,
    ) + opt_string_element("sensorSerialNumber"@, h.sensor_serial) + opt_string_element(
        "sensorSoftwareVersion"@,
        h.sensor_sw_version,
    ) + opt_string_element("sensorFirmwareVersion"@, h.sensor_fw_version) + opt_string_element(
        "sensorHardwareVersion"@,
        h.sensor_hw_version,
    )
}

/// The opening of the points element with their location and number, and of their prototype.
pub open spec fn head_points(h: PointCloudHead) -> Seq<char> {
    "<points type=\"CompressedVector\" fileOffset=\""@ + decimal(h.file_offset as nat) + "\" recordCount=\""@
        + decimal(h.records as nat) + "\">\n<prototype type=\"Structure\">\n"@
}

/// Appends the string element of an optional string, where there is one.
fn append_opt_string(xml: &mut String, tag_name: &str, value: &Option<String>)
    ensures
        final(xml)@ == old(xml)@ + opt_string_element(tag_name@, *value),
{
    match value {
        Some(v) => {
            xml.append(gen_string(tag_name, v.as_str()).as_str());
        },
        None => {
            assert(old(xml)@ + Seq::<char>::empty() =~= old(xml)@);
        },
    }
}

impl PointCloudHead {
    /// Generates the opening of the point cloud element with its GUID; fails for an empty GUID.
    pub fn xml_start(&self) -> (r: Result<String>)
        ensures
            r is Ok <==> self.guid@.len() > 0,
            r matches Ok(s) ==> s@ == head_start(*self),
            r matches Err(e) ==> e is Invalid,
    {
        if self.guid.as_str().unicode_len() == 0 {
            return Error::invalid("Empty point cloud GUID is not allowed");
        }
        let mut xml = String::from_str("<vectorChild type=\"Structure\">\n");
        xml.append(gen_string("guid", self.guid.as_str()).as_str());
        Ok(xml)
    }

    /// Generates the string elements of the names and the sensor.
    pub fn xml_strings(&self) -> (r: String)
        ensures
            r@ == head_strings(*self),
    {
        let mut xml = String::new();
        append_opt_string(&mut xml, "name", &self.name);
        append_opt_string(&mut xml, "description", &self.description);
        append_opt_string(&mut xml, "sensorVendor", &self.sensor_vendor);
        append_opt_string(&mut xml, "sensorModel", &self.sensor_model);
        append_opt_string(&mut xml, "sensorSerialNumber", &self.sensor_serial);
        append_opt_string(&mut xml, "sensorSoftwareVersion", &self.sensor_sw_version);
        append_opt_string(&mut xml, "sensorFirmwareVersion", &self.sensor_fw_version);
        append_opt_string(&mut xml, "sensorHardwareVersion", &self.sensor_hw_version);
        assert(xml@ =~= head_strings(*self));
        xml
    }

    /// Generates the opening of the points element and of their prototype.
    pub fn xml_points(&self) -> (r: String)
        ensures
            r@ == head_points(*self),
    {
        let mut xml = String::from_str("<points type=\"CompressedVector\" fileOffset=\"");
        xml.append(u64_to_decimal(self.file_offset).as_str());
        xml.append("\" recordCount=\"");
        xml.append(u64_to_decimal(self.records).as_str());
        xml.append("\">\n<prototype type=\"Structure\">\n");
        assert(xml@ =~= head_points(*self));
        xml
    }
}


/// The child is the element of an entry of a vector of structures: its tag is
/// `vectorChild` and its type `Structure`.
pub open spec fn is_entry(node: XmlNode) -> bool {
    node.tag@ == "vectorChild"@ && has_type(node, "Structure"@)
}

/// The entries among the elements, in order.
pub open spec fn entries(nodes: Seq<XmlNode>) -> Seq<XmlNode>
    decreases nodes.len(),
{
    if nodes.len() == 0 {
        Seq::empty()
    } else if is_entry(nodes.last()) {
        entries(nodes.drop_last()).push(nodes.last())
    } else {
        entries(nodes.drop_last())
    }
}

/// The entries of a prefix are a prefix of the entries.
proof fn lemma_entries_prefix(nodes: Seq<XmlNode>, i: int)
    requires
        0 <= i <= nodes.len(),
    ensures
        entries(nodes.take(i)).len() <= entries(nodes).len(),
        entries(nodes).take(entries(nodes.take(i)).len() as int) == entries(nodes.take(i)),
    decreases nodes.len() - i,
{
    if i < nodes.len() {
        lemma_entries_prefix(nodes, i + 1);
        assert(nodes.take(i + 1).drop_last() =~= nodes.take(i));
        let a = entries(nodes.take(i));
        let b = entries(nodes.take(i + 1));
        assert(b.take(a.len() as int) =~= a);
        assert(entries(nodes).take(a.len() as int) =~= entries(nodes).take(b.len() as int).take(a.len() as int));
    } else {
        assert(nodes.take(i) =~= nodes);
        assert(entries(nodes).take(entries(nodes).len() as int) =~= entries(nodes));
    }
}

impl PointCloudHead {
    /// Reads the parts without floating point values of the descriptors of all point clouds
    /// from the `data3D` element: one for each child that is an entry of type `Structure`.
    pub fn vec_from_data3d(data3d: &XmlNode) -> (r: Result<Vec<PointCloudHead>>)
        ensures
            r is Ok <==> forall|k: int| 0 <= k < entries(data3d.children@).len() ==> head_ok(
                #[trigger] entries(data3d.children@)[k],
            ),
            r matches Ok(v) ==> v@.len() == entries(data3d.children@).len() && forall|k: int|
                0 <= k < v@.len() ==> head_read(entries(data3d.children@)[k], #[trigger] v@[k]),
            r matches Err(e) ==> e is Invalid,
    {
        let ghost all = data3d.children@;
        let mut heads: Vec<PointCloudHead> = Vec::new();
        let mut i: usize = 0;
        while i < data3d.children.len()
            invariant
                i <= all.len(),
                all == data3d.children@,
                heads@.len() == entries(all.take(i as int)).len(),
                forall|k: int| 0 <= k < heads@.len() ==> head_ok(#[trigger] entries(all.take(i as int))[k]),
                forall|k: int| 0 <= k < heads@.len() ==> head_read(entries(all.take(i as int))[k], #[trigger] heads@[k]),
            decreases all.len() - i,
        {
            let c = &data3d.children[i];
            let is_tag = crate::text::str_eq(c.tag.as_str(), "vectorChild");
            let is_kind = match c.attribute("type") {
                Some(k) => crate::text::str_eq(k, "Structure"),
                None => false,
            };
            let ghost before = entries(all.take(i as int));
            proof {
                assert(all.take(i + 1).drop_last() =~= all.take(i as int));
                assert(all.take(i + 1).last() == all[i as int]);
            }
            if is_tag && is_kind {
                match PointCloudHead::from_node(c) {
                    Ok(h) => {
                        heads.push(h);
                    },
                    Err(e) => {
                        proof {
                            lemma_entries_prefix(all, i + 1);
                            let k = before.len() as int;
                            assert(entries(all.take(i + 1))[k] == all[i as int]);
                            assert(entries(all)[k] == entries(all.take(i + 1))[k]);
                            assert(!head_ok(entries(all)[k]));
                        }
                        return Err(e);
                    },
                }
            }
            i = i + 1;
        }
        proof {
            assert(all.take(all.len() as int) =~= all);
        }
        Ok(heads)
    }
}


/// The value of the attribute with the given name read as an `i64`, where there is one.
pub open spec fn attribute_i64(node: XmlNode, name: Seq<char>) -> Option<i64> {
    match node.attribute_of(name) {
        Some(t) => parse_i64(t),
        None => None,
    }
}

/// Reads the attribute with the given name as an `i64`.
fn i64_attribute(node: &XmlNode, name: &str) -> (r: Result<i64>)
    ensures
        match attribute_i64(*node, name@) {
            Some(v) => r == Ok::<i64, Error>(v),
            None => r matches Err(e) && e is Invalid,
        },
{
    match node.attribute(name) {
        Some(text) => match str_to_i64(text) {
            Some(v) => Ok(v),
            None => Err(
                Error::Invalid {
                    desc: String::from_str("Cannot parse '").concat(name).concat("' attribute value as i64"),
                },
            ),
        },
        None => Err(
            Error::Invalid { desc: String::from_str("Cannot find '").concat(name).concat("' attribute") },
        ),
    }
}

/// Reads the limits of an integer or scaled integer record type from the `minimum` and
/// `maximum` attributes of its element; fails where either is missing or no `i64`, or where the
/// maximum lies below the minimum.
pub fn integer_limits(node: &XmlNode) -> (r: Result<(i64, i64)>)
    ensures
        r is Ok <==> (attribute_i64(*node, "minimum"@) matches Some(min) && attribute_i64(*node, "maximum"@) matches Some(
            max,
        ) && min <= max),
        r matches Ok(l) ==> Some(l.0) == attribute_i64(*node, "minimum"@) && Some(l.1) == attribute_i64(
            *node,
            "maximum"@,
        ),
        r matches Err(e) ==> e is Invalid,
{
    let min = match i64_attribute(node, "minimum") {
        Ok(v) => v,
        Err(e) => {
            return Err(e);
        },
    };
    let max = match i64_attribute(node, "maximum") {
        Ok(v) => v,
        Err(e) => {
            return Err(e);
        },
    };
    if max < min {
        return Error::invalid("Maximum value of an integer type lies below its minimum value");
    }
    Ok((min, max))
}

} // verus!
