use crate::blob::{blob_element, blob_of, Blob};
use crate::bounds::{opt_int_element, opt_int_value, IndexBounds};
use crate::descriptor::{attribute_u64, head_points, head_read, head_start, head_strings, points_of, PointCloudHead};
use crate::root::{namespaces_xml, opt_string_element, root_head, root_read, Root};
use crate::extension::{declared_extensions, Extension};
use crate::images::{u32_value_of, visual_reference_of, VisualReferenceImage};
use crate::root::{opt_text_is, string_text};
use crate::xml::{element, signed_decimal, string_element};
use crate::images::{image_blob_of, ImageBlob, ImageFormat};
use crate::xml::decimal;
use crate::xml_node::{XmlNamespace, XmlNode};
use crate::xml_read::{lemma_decimal_roundtrip, lemma_unsigned_decimal_roundtrip};
use vstd::prelude::*;

verus! {

/// The tag of a blob element is fixed by the element: two blob elements with the same offset
/// and length are equal only where their tags are.
pub proof fn lemma_blob_element_tag(t: Seq<char>, u: Seq<char>, offset: u64, length: u64)
    requires
        blob_element(t, offset, length) == blob_element(u, offset, length),
    ensures
        t == u,
{
    let x = blob_element(t, offset, length);
    let y = blob_element(u, offset, length);
    let rest = " type=\"Blob\" fileOffset=\""@ + decimal(offset as nat) + "\" length=\""@ + decimal(length as nat)
        + "\"/>\n"@;
    assert(x =~= "<"@ + (t + rest));
    assert(y =~= "<"@ + (u + rest));
    assert(t.len() == u.len());
    reveal_strlit("<");
    assert forall|j: int| 0 <= j < t.len() implies t[j] == u[j] by {
        assert(("<"@ + (t + rest))[1 + j] == (t + rest)[j]);
        assert(("<"@ + (u + rest))[1 + j] == (u + rest)[j]);
        assert(x[1 + j] == t[j]);
        assert(y[1 + j] == u[j]);
    }
    assert(t =~= u);
}

/// A blob element reads back as its blob: an element with the attributes that the written
/// element carries, type `Blob` and the offset and length in decimal, is that blob.
pub proof fn lemma_blob_element_reads_back(c: XmlNode, b: Blob)
    requires
        c.attribute_of("type"@) == Some("Blob"@),
        c.attribute_of("fileOffset"@) == Some(decimal(b.offset as nat)),
        c.attribute_of("length"@) == Some(decimal(b.length as nat)),
    ensures
        blob_of(c) == Some(b),
{
    lemma_unsigned_decimal_roundtrip(b.offset);
    lemma_unsigned_decimal_roundtrip(b.length);
}

/// An image blob written as XML reads back with the same blob and format: where the element
/// that `xml_string` writes has tag `t`, a representation element whose only child carries tag
/// `t` and the written attributes reads as the same image blob. So a PNG blob is written under
/// a tag that reads as PNG and a JPEG blob under one that reads as JPEG.
pub proof fn lemma_image_blob_roundtrip(b: ImageBlob, t: Seq<char>, c: XmlNode, rep: XmlNode)
    requires
        b.xml() == blob_element(t, b.data.offset, b.data.length),
        c.tag@ == t,
        c.attribute_of("type"@) == Some("Blob"@),
        c.attribute_of("fileOffset"@) == Some(decimal(b.data.offset as nat)),
        c.attribute_of("length"@) == Some(decimal(b.data.length as nat)),
        rep.children@ == seq![c],
    ensures
        image_blob_of(rep) == Some(b),
{
    lemma_blob_element_reads_back(c, b.data);
    reveal_strlit("pngImage");
    reveal_strlit("jpegImage");
    assert("pngImage"@[0] != "jpegImage"@[0]);
    match b.format {
        ImageFormat::Png => {
            lemma_blob_element_tag(t, "pngImage"@, b.data.offset, b.data.length);
            assert(rep.children@[0].tag@ != "jpegImage"@);
            assert(rep.child_of("jpegImage"@) is None);
            assert(rep.first_child("pngImage"@, 0));
            assert(rep.child_of("pngImage"@) == Some(c));
        },
        ImageFormat::Jpeg => {
            lemma_blob_element_tag(t, "jpegImage"@, b.data.offset, b.data.length);
            assert(rep.first_child("jpegImage"@, 0));
            assert(rep.child_of("jpegImage"@) == Some(c));
        },
    }
}


/// The format of an image blob is fixed by the tag of its element: a representation element
/// whose only child is a blob element tagged `pngImage` holds a PNG blob, and one tagged
/// `jpegImage` a JPEG blob.
pub proof fn lemma_image_blob_tags(c: XmlNode, rep: XmlNode, b: Blob)
    requires
        c.attribute_of("type"@) == Some("Blob"@),
        c.attribute_of("fileOffset"@) == Some(decimal(b.offset as nat)),
        c.attribute_of("length"@) == Some(decimal(b.length as nat)),
        rep.children@ == seq![c],
    ensures
        c.tag@ == "pngImage"@ ==> image_blob_of(rep) == Some(ImageBlob { data: b, format: ImageFormat::Png }),
        c.tag@ == "jpegImage"@ ==> image_blob_of(rep) == Some(ImageBlob { data: b, format: ImageFormat::Jpeg }),
{
    lemma_blob_element_reads_back(c, b);
    reveal_strlit("pngImage");
    reveal_strlit("jpegImage");
    assert("pngImage"@[0] != "jpegImage"@[0]);
    if c.tag@ == "pngImage"@ {
        assert(rep.children@[0].tag@ != "jpegImage"@);
        assert(rep.child_of("jpegImage"@) is None);
        assert(rep.first_child("pngImage"@, 0));
        assert(rep.child_of("pngImage"@) == Some(c));
    }
    if c.tag@ == "jpegImage"@ {
        assert(rep.first_child("jpegImage"@, 0));
        assert(rep.child_of("jpegImage"@) == Some(c));
    }
}


/// The optional string fields of a point cloud descriptor, in the order the descriptor
/// writes them.
pub open spec fn string_fields(h: PointCloudHead) -> Seq<Option<String>> {
    seq![
        h.name,
        h.description,
        h.sensor_vendor,
        h.sensor_model,
        h.sensor_serial,
        h.sensor_sw_version,
        h.sensor_fw_version,
        h.sensor_hw_version,
    ]
}

/// The tag under which each optional string field of a point cloud descriptor is written and
/// read, in the order of `string_fields`.
pub open spec fn string_tags() -> Seq<Seq<char>> {
    seq![
        "name"@,
        "description"@,
        "sensorVendor"@,
        "sensorModel"@,
        "sensorSerialNumber"@,
        "sensorSoftwareVersion"@,
        "sensorFirmwareVersion"@,
        "sensorHardwareVersion"@,
    ]
}

/// The descriptor with only string field `k` kept.
pub open spec fn keep_string(h: PointCloudHead, k: int) -> PointCloudHead {
    PointCloudHead {
        guid: h.guid,
        file_offset: h.file_offset,
        records: h.records,
        name: if k == 0 { h.name } else { None },
        description: if k == 1 { h.description } else { None },
        sensor_vendor: if k == 2 { h.sensor_vendor } else { None },
        sensor_model: if k == 3 { h.sensor_model } else { None },
        sensor_serial: if k == 4 { h.sensor_serial } else { None },
        sensor_sw_version: if k == 5 { h.sensor_sw_version } else { None },
        sensor_fw_version: if k == 6 { h.sensor_fw_version } else { None },
        sensor_hw_version: if k == 7 { h.sensor_hw_version } else { None },
        index_bounds: h.index_bounds,
    }
}

/// Each string field is written under its own tag: a descriptor whose only string field is
/// field `k` writes exactly the string element with tag `k` holding that field's value, and
/// nothing where the field is empty.
pub proof fn lemma_head_string_field(h: PointCloudHead, k: int)
    requires
        0 <= k < 8,
        forall|j: int| 0 <= j < 8 && j != k ==> (#[trigger] string_fields(h)[j]) is None,
    ensures
        match string_fields(h)[k] {
            Some(v) => head_strings(h) == string_element(string_tags()[k], v@),
            None => head_strings(h) == Seq::<char>::empty(),
        },
{
    assert(string_fields(h)[0] == h.name);
    assert(string_fields(h)[1] == h.description);
    assert(string_fields(h)[2] == h.sensor_vendor);
    assert(string_fields(h)[3] == h.sensor_model);
    assert(string_fields(h)[4] == h.sensor_serial);
    assert(string_fields(h)[5] == h.sensor_sw_version);
    assert(string_fields(h)[6] == h.sensor_fw_version);
    assert(string_fields(h)[7] == h.sensor_hw_version);
    let e = Seq::<char>::empty();
    match string_fields(h)[k] {
        Some(v) => {
            let x = string_element(string_tags()[k], v@);
            assert(e + e + x + e + e + e + e + e =~= x);
            assert(e + x + e + e + e + e + e + e =~= x);
            assert(x + e + e + e + e + e + e + e =~= x);
            assert(e + e + e + x + e + e + e + e =~= x);
            assert(e + e + e + e + x + e + e + e =~= x);
            assert(e + e + e + e + e + x + e + e =~= x);
            assert(e + e + e + e + e + e + x + e =~= x);
            assert(e + e + e + e + e + e + e + x =~= x);
        },
        None => {
            assert(e + e + e + e + e + e + e + e =~= e);
        },
    }
}

/// Keeping only string field `k` writes only that field.
proof fn lemma_keep_string(h: PointCloudHead, k: int)
    requires
        0 <= k < 8,
    ensures
        match string_fields(h)[k] {
            Some(v) => head_strings(keep_string(h, k)) == string_element(string_tags()[k], v@),
            None => head_strings(keep_string(h, k)) == Seq::<char>::empty(),
        },
{
    let g = keep_string(h, k);
    assert forall|j: int| 0 <= j < 8 && j != k implies (#[trigger] string_fields(g)[j]) is None by {}
    lemma_head_string_field(g, k);
    assert(string_fields(g)[k] == string_fields(h)[k]);
}

/// The string fields are written one after the other, in the order of `string_fields`: the
/// strings of a descriptor are those of its fields, each written alone, joined.
pub proof fn lemma_head_strings_order(h: PointCloudHead)
    ensures
        head_strings(h) == head_strings(keep_string(h, 0)) + head_strings(keep_string(h, 1)) + head_strings(
            keep_string(h, 2),
        ) + head_strings(keep_string(h, 3)) + head_strings(keep_string(h, 4)) + head_strings(keep_string(h, 5))
            + head_strings(keep_string(h, 6)) + head_strings(keep_string(h, 7)),
{
    lemma_keep_string(h, 0);
    lemma_keep_string(h, 1);
    lemma_keep_string(h, 2);
    lemma_keep_string(h, 3);
    lemma_keep_string(h, 4);
    lemma_keep_string(h, 5);
    lemma_keep_string(h, 6);
    lemma_keep_string(h, 7);
    assert(head_strings(h) =~= head_strings(keep_string(h, 0)) + head_strings(keep_string(h, 1)) + head_strings(
        keep_string(h, 2),
    ) + head_strings(keep_string(h, 3)) + head_strings(keep_string(h, 4)) + head_strings(keep_string(h, 5))
        + head_strings(keep_string(h, 6)) + head_strings(keep_string(h, 7)));
}


/// Reading a descriptor takes each string field from the element with the tag it is written
/// under: field `k` of a descriptor read from a node holds the text of the node's element
/// tagged `string_tags()[k]`.
pub proof fn lemma_head_read_tags(node: XmlNode, h: PointCloudHead)
    requires
        head_read(node, h),
    ensures
        forall|k: int| 0 <= k < 8 ==> opt_text_is(#[trigger] string_fields(h)[k], string_text(node, string_tags()[k])),
{
    assert forall|k: int| 0 <= k < 8 implies opt_text_is(#[trigger] string_fields(h)[k], string_text(node, string_tags()[k])) by {
        if k == 0 {
            assert(string_fields(h)[0] == h.name);
        } else if k == 1 {
            assert(string_fields(h)[1] == h.description);
        } else if k == 2 {
            assert(string_fields(h)[2] == h.sensor_vendor);
        } else if k == 3 {
            assert(string_fields(h)[3] == h.sensor_model);
        } else if k == 4 {
            assert(string_fields(h)[4] == h.sensor_serial);
        } else if k == 5 {
            assert(string_fields(h)[5] == h.sensor_sw_version);
        } else if k == 6 {
            assert(string_fields(h)[6] == h.sensor_fw_version);
        } else {
            assert(string_fields(h)[7] == h.sensor_hw_version);
        }
    }
}


/// The text `x` occurs in `s`.
pub open spec fn contains(s: Seq<char>, x: Seq<char>) -> bool {
    exists|i: int| 0 <= i && i + x.len() <= s.len() && #[trigger] s.subrange(i, i + x.len()) == x
}

/// A text occurs in any text that it stands in the middle of.
pub proof fn lemma_contains(a: Seq<char>, x: Seq<char>, b: Seq<char>)
    ensures
        contains(a + x + b, x),
{
    let s = a + x + b;
    assert(s.subrange(a.len() as int, (a.len() + x.len()) as int) =~= x);
}

/// The attribute text `name="value"` with a leading space.
pub open spec fn attribute_text(name: Seq<char>, value: Seq<char>) -> Seq<char> {
    " "@ + name + "=\""@ + value + "\""@
}

/// A blob element carries the blob's offset under `fileOffset` and its length under `length`.
pub proof fn lemma_blob_element_attributes(t: Seq<char>, offset: u64, length: u64)
    ensures
        contains(blob_element(t, offset, length), attribute_text("fileOffset"@, decimal(offset as nat))),
        contains(blob_element(t, offset, length), attribute_text("length"@, decimal(length as nat))),
{
    let o = decimal(offset as nat);
    let l = decimal(length as nat);
    reveal_strlit(" type=\"Blob\" fileOffset=\"");
    reveal_strlit(" type=\"Blob\"");
    reveal_strlit(" fileOffset=\"");
    reveal_strlit("\" length=\"");
    reveal_strlit(" length=\"");
    reveal_strlit("\"");
    reveal_strlit("\"/>\n");
    reveal_strlit("/>\n");
    reveal_strlit(" ");
    reveal_strlit("=\"");
    reveal_strlit("fileOffset");
    reveal_strlit("length");
    let x = attribute_text("fileOffset"@, o);
    let y = attribute_text("length"@, l);
    assert(blob_element(t, offset, length) =~= ("<"@ + t + " type=\"Blob\""@) + x + (" length=\""@ + l + "\"/>\n"@));
    lemma_contains("<"@ + t + " type=\"Blob\""@, x, " length=\""@ + l + "\"/>\n"@);
    assert(blob_element(t, offset, length) =~= ("<"@ + t + " type=\"Blob\" fileOffset=\""@ + o + "\""@) + y + "/>\n"@);
    lemma_contains("<"@ + t + " type=\"Blob\" fileOffset=\""@ + o + "\""@, y, "/>\n"@);
}


/// The points element of a descriptor carries the section offset under `fileOffset` and the
/// number of points under `recordCount`.
pub proof fn lemma_head_points_attributes(h: PointCloudHead)
    ensures
        contains(head_points(h), attribute_text("fileOffset"@, decimal(h.file_offset as nat))),
        contains(head_points(h), attribute_text("recordCount"@, decimal(h.records as nat))),
{
    let o = decimal(h.file_offset as nat);
    let n = decimal(h.records as nat);
    reveal_strlit("<points type=\"CompressedVector\" fileOffset=\"");
    reveal_strlit("<points type=\"CompressedVector\"");
    reveal_strlit("\" recordCount=\"");
    reveal_strlit("\"");
    reveal_strlit("\">\n<prototype type=\"Structure\">\n");
    reveal_strlit(">\n<prototype type=\"Structure\">\n");
    reveal_strlit(" ");
    reveal_strlit("=\"");
    reveal_strlit("fileOffset");
    reveal_strlit("recordCount");
    let x = attribute_text("fileOffset"@, o);
    let y = attribute_text("recordCount"@, n);
    let open = "<points type=\"CompressedVector\""@;
    let close = ">\n<prototype type=\"Structure\">\n"@;
    assert(head_points(h) =~= open + x + (y + close));
    lemma_contains(open, x, y + close);
    assert(head_points(h) =~= (open + x) + y + close);
    lemma_contains(open + x, y, close);
}

/// The opening of a point cloud element carries its GUID as the string element `guid`.
pub proof fn lemma_head_start_guid(h: PointCloudHead)
    ensures
        contains(head_start(h), string_element("guid"@, h.guid@)),
{
    let g = string_element("guid"@, h.guid@);
    assert(head_start(h) =~= "<vectorChild type=\"Structure\">\n"@ + g + Seq::<char>::empty());
    lemma_contains("<vectorChild type=\"Structure\">\n"@, g, Seq::<char>::empty());
}

/// The opening of the XML section carries the file's GUID under `guid`, its major version
/// under `versionMajor`, its minor version under `versionMinor`, and the coordinate metadata
/// and library version, where there are any, under `coordinateMetadata` and
/// `e57LibraryVersion`.
pub proof fn lemma_root_head_values(root: Root, extensions: Seq<Extension>)
    ensures
        contains(root_head(root, extensions), string_element("guid"@, root.guid@)),
        contains(
            root_head(root, extensions),
            element("versionMajor"@, "Integer"@, signed_decimal(root.major_version as int)),
        ),
        contains(
            root_head(root, extensions),
            element("versionMinor"@, "Integer"@, signed_decimal(root.minor_version as int)),
        ),
        root.coordinate_metadata matches Some(c) ==> contains(
            root_head(root, extensions),
            string_element("coordinateMetadata"@, c@),
        ),
        root.library_version matches Some(v) ==> contains(
            root_head(root, extensions),
            string_element("e57LibraryVersion"@, v@),
        ),
{
    let h0 = "<?xml version=\"1.0\" encoding=\"UTF-8\"?>\n"@
        + "<e57Root type=\"Structure\" xmlns=\"http://www.astm.org/COMMIT/E57/2010-e57-v1.0\""@
        + crate::root::namespaces_xml(extensions) + ">\n"@ + string_element("formatName"@, "ASTM E57 3D Imaging Data File"@);
    let g = string_element("guid"@, root.guid@);
    let ma = element("versionMajor"@, "Integer"@, signed_decimal(root.major_version as int));
    let mi = element("versionMinor"@, "Integer"@, signed_decimal(root.minor_version as int));
    let cm = opt_string_element("coordinateMetadata"@, root.coordinate_metadata);
    let lv = opt_string_element("e57LibraryVersion"@, root.library_version);
    let e = Seq::<char>::empty();
    assert(root_head(root, extensions) == h0 + g + ma + mi + cm + lv);
    assert(root_head(root, extensions) =~= h0 + g + (ma + mi + cm + lv));
    lemma_contains(h0, g, ma + mi + cm + lv);
    assert(root_head(root, extensions) =~= (h0 + g) + ma + (mi + cm + lv));
    lemma_contains(h0 + g, ma, mi + cm + lv);
    assert(root_head(root, extensions) =~= (h0 + g + ma) + mi + (cm + lv));
    lemma_contains(h0 + g + ma, mi, cm + lv);
    assert(root_head(root, extensions) =~= (h0 + g + ma + mi) + cm + lv);
    lemma_contains(h0 + g + ma + mi, cm, lv);
    assert(root_head(root, extensions) =~= (h0 + g + ma + mi + cm) + lv + e);
    lemma_contains(h0 + g + ma + mi + cm, lv, e);
}

/// Each of six pieces occurs in the text that joins them between an opening and a closing.
proof fn lemma_contains_six(
    a: Seq<char>,
    e1: Seq<char>,
    e2: Seq<char>,
    e3: Seq<char>,
    e4: Seq<char>,
    e5: Seq<char>,
    e6: Seq<char>,
    z: Seq<char>,
)
    ensures
        contains(a + e1 + e2 + e3 + e4 + e5 + e6 + z, e1),
        contains(a + e1 + e2 + e3 + e4 + e5 + e6 + z, e2),
        contains(a + e1 + e2 + e3 + e4 + e5 + e6 + z, e3),
        contains(a + e1 + e2 + e3 + e4 + e5 + e6 + z, e4),
        contains(a + e1 + e2 + e3 + e4 + e5 + e6 + z, e5),
        contains(a + e1 + e2 + e3 + e4 + e5 + e6 + z, e6),
{
    let w = a + e1 + e2 + e3 + e4 + e5 + e6 + z;
    assert(contains(w, e1)) by {
        assert(w =~= a + e1 + (e2 + e3 + e4 + e5 + e6 + z));
        lemma_contains(a, e1, e2 + e3 + e4 + e5 + e6 + z);
    }
    assert(contains(w, e2)) by {
        assert(w =~= (a + e1) + e2 + (e3 + e4 + e5 + e6 + z));
        lemma_contains(a + e1, e2, e3 + e4 + e5 + e6 + z);
    }
    assert(contains(w, e3)) by {
        assert(w =~= (a + e1 + e2) + e3 + (e4 + e5 + e6 + z));
        lemma_contains(a + e1 + e2, e3, e4 + e5 + e6 + z);
    }
    assert(contains(w, e4)) by {
        assert(w =~= (a + e1 + e2 + e3) + e4 + (e5 + e6 + z));
        lemma_contains(a + e1 + e2 + e3, e4, e5 + e6 + z);
    }
    assert(contains(w, e5)) by {
        assert(w =~= (a + e1 + e2 + e3 + e4) + e5 + (e6 + z));
        lemma_contains(a + e1 + e2 + e3 + e4, e5, e6 + z);
    }
    assert(contains(w, e6)) by {
        assert(w =~= (a + e1 + e2 + e3 + e4 + e5) + e6 + z);
        lemma_contains(a + e1 + e2 + e3 + e4 + e5, e6, z);
    }
}

/// The XML of index bounds carries each bound that is there as an integer element under its
/// own tag: `rowMinimum`, `rowMaximum`, `columnMinimum`, `columnMaximum`, `returnMinimum`
/// and `returnMaximum`.
pub proof fn lemma_index_bounds_xml_values(b: IndexBounds)
    ensures
        b.row_min matches Some(v) ==> contains(b.xml(), element("rowMinimum"@, "Integer"@, signed_decimal(v as int))),
        b.row_max matches Some(v) ==> contains(b.xml(), element("rowMaximum"@, "Integer"@, signed_decimal(v as int))),
        b.column_min matches Some(v) ==> contains(
            b.xml(),
            element("columnMinimum"@, "Integer"@, signed_decimal(v as int)),
        ),
        b.column_max matches Some(v) ==> contains(
            b.xml(),
            element("columnMaximum"@, "Integer"@, signed_decimal(v as int)),
        ),
        b.return_min matches Some(v) ==> contains(
            b.xml(),
            element("returnMinimum"@, "Integer"@, signed_decimal(v as int)),
        ),
        b.return_max matches Some(v) ==> contains(
            b.xml(),
            element("returnMaximum"@, "Integer"@, signed_decimal(v as int)),
        ),
{
    let a = "<indexBounds type=\"Structure\">\n"@;
    let e1 = opt_int_element("rowMinimum"@, b.row_min);
    let e2 = opt_int_element("rowMaximum"@, b.row_max);
    let e3 = opt_int_element("columnMinimum"@, b.column_min);
    let e4 = opt_int_element("columnMaximum"@, b.column_max);
    let e5 = opt_int_element("returnMinimum"@, b.return_min);
    let e6 = opt_int_element("returnMaximum"@, b.return_max);
    let z = "</indexBounds>\n"@;
    assert(b.xml() == a + e1 + e2 + e3 + e4 + e5 + e6 + z);
    lemma_contains_six(a, e1, e2, e3, e4, e5, e6, z);
}

/// The XML of a visual reference image carries its image blob, its width under `imageWidth`
/// and its height under `imageHeight`, and its mask, where there is one, as a blob element
/// under `imageMask`.
pub proof fn lemma_visual_reference_xml_values(v: VisualReferenceImage)
    ensures
        contains(v.xml(), v.blob.xml()),
        contains(v.xml(), element("imageWidth"@, "Integer"@, signed_decimal(v.properties.width as int))),
        contains(v.xml(), element("imageHeight"@, "Integer"@, signed_decimal(v.properties.height as int))),
        v.mask matches Some(m) ==> contains(v.xml(), blob_element("imageMask"@, m.offset, m.length)),
{
    let a = "<visualReferenceRepresentation type=\"Structure\">\n"@;
    let bl = v.blob.xml();
    let mk = match v.mask {
        Some(m) => blob_element("imageMask"@, m.offset, m.length),
        None => Seq::<char>::empty(),
    };
    let w = element("imageWidth"@, "Integer"@, signed_decimal(v.properties.width as int));
    let hh = element("imageHeight"@, "Integer"@, signed_decimal(v.properties.height as int));
    let z = "</visualReferenceRepresentation>\n"@;
    assert(v.xml() == a + bl + mk + w + hh + z);
    assert(v.xml() =~= a + bl + (mk + w + hh + z));
    lemma_contains(a, bl, mk + w + hh + z);
    assert(v.xml() =~= (a + bl) + mk + (w + hh + z));
    lemma_contains(a + bl, mk, w + hh + z);
    assert(v.xml() =~= (a + bl + mk) + w + (hh + z));
    lemma_contains(a + bl + mk, w, hh + z);
    assert(v.xml() =~= (a + bl + mk + w) + hh + z);
    lemma_contains(a + bl + mk + w, hh, z);
}

/// Reading a descriptor takes its GUID from the string element `guid`, the section offset from
/// the `fileOffset` attribute and the number of points from the `recordCount` attribute of its
/// points element: where these attributes hold the decimal numbers `offset` and `count`,
/// the descriptor read has exactly these.
pub proof fn lemma_head_read_points(node: XmlNode, h: PointCloudHead, offset: u64, count: u64)
    requires
        head_read(node, h),
        points_of(node) matches Some(c) && c.attribute_of("fileOffset"@) == Some(decimal(offset as nat))
            && c.attribute_of("recordCount"@) == Some(decimal(count as nat)),
    ensures
        string_text(node, "guid"@) == Some(h.guid@),
        h.file_offset == offset,
        h.records == count,
{
    lemma_unsigned_decimal_roundtrip(offset);
    lemma_unsigned_decimal_roundtrip(count);
}

/// Reading the shared values takes the major version from `versionMajor`, the minor version
/// from `versionMinor`, the GUID from `guid` and the format name from `formatName`, and the
/// optional strings from `coordinateMetadata` and `e57LibraryVersion`.
pub proof fn lemma_root_read_values(node: XmlNode, v: Root)
    requires
        root_read(node, v),
    ensures
        crate::root::int_value(node, "versionMajor"@) == Some(v.major_version),
        crate::root::int_value(node, "versionMinor"@) == Some(v.minor_version),
        string_text(node, "guid"@) == Some(v.guid@),
        string_text(node, "formatName"@) == Some(v.format@),
        opt_text_is(v.coordinate_metadata, string_text(node, "coordinateMetadata"@)),
        opt_text_is(v.library_version, string_text(node, "e57LibraryVersion"@)),
{
}


/// Reading a descriptor takes each index bound from the integer element under its own tag in
/// the `indexBounds` element: `rowMinimum`, `rowMaximum`, `columnMinimum`, `columnMaximum`,
/// `returnMinimum` and `returnMaximum`; without that element the descriptor has no bounds.
pub proof fn lemma_head_read_bounds(node: XmlNode, h: PointCloudHead)
    requires
        head_read(node, h),
    ensures
        node.child_of("indexBounds"@) is None ==> h.index_bounds is None,
        node.child_of("indexBounds"@) matches Some(c) ==> (h.index_bounds matches Some(b) && b.row_min
            == opt_int_value(c, "rowMinimum"@) && b.row_max == opt_int_value(c, "rowMaximum"@) && b.column_min
            == opt_int_value(c, "columnMinimum"@) && b.column_max == opt_int_value(c, "columnMaximum"@)
            && b.return_min == opt_int_value(c, "returnMinimum"@) && b.return_max == opt_int_value(
            c,
            "returnMaximum"@,
        )),
{
}

/// The first child element with a tag is the one at the first index that carries it.
proof fn lemma_child_at(node: XmlNode, tag: Seq<char>, i: int)
    requires
        node.first_child(tag, i),
    ensures
        node.child_of(tag) == Some(node.children@[i]),
{
    let j = choose|j: int| node.first_child(tag, j);
    assert(node.first_child(tag, j));
    if j < i {
        assert(node.children@[j].tag@ != tag);
    } else if j > i {
        assert(node.children@[i].tag@ != tag);
    }
}

/// An element none of whose children carries a tag has no child with that tag.
proof fn lemma_no_child(node: XmlNode, tag: Seq<char>)
    requires
        forall|i: int| 0 <= i < node.children@.len() ==> (#[trigger] node.children@[i]).tag@ != tag,
    ensures
        node.child_of(tag) is None,
{
}

/// An integer element holding a `u32` in decimal reads as that number.
proof fn lemma_u32_element(node: XmlNode, tag: Seq<char>, i: int, w: XmlNode, v: u32)
    requires
        node.first_child(tag, i),
        node.children@[i] == w,
        w.attribute_of("type"@) == Some("Integer"@),
        w.text_or("0"@) == signed_decimal(v as int),
    ensures
        u32_value_of(node, tag) == Some(v),
{
    lemma_child_at(node, tag, i);
    lemma_decimal_roundtrip(v as i64);
    assert(signed_decimal((v as i64) as int) == signed_decimal(v as int));
}

/// A visual reference image written as XML reads back as itself: a representation element
/// whose children are the elements that `xml` writes, in its order (the image blob under the
/// tag that `xml` gives it, the mask where there is one, the width and the height), each with
/// the type and the value written, reads as the same image.
pub proof fn lemma_visual_reference_roundtrip(
    v: VisualReferenceImage,
    t: Seq<char>,
    c: XmlNode,
    mk: XmlNode,
    w: XmlNode,
    hn: XmlNode,
    rep: XmlNode,
)
    requires
        v.blob.xml() == blob_element(t, v.blob.data.offset, v.blob.data.length),
        c.tag@ == t,
        c.attribute_of("type"@) == Some("Blob"@),
        c.attribute_of("fileOffset"@) == Some(decimal(v.blob.data.offset as nat)),
        c.attribute_of("length"@) == Some(decimal(v.blob.data.length as nat)),
        w.tag@ == "imageWidth"@,
        w.attribute_of("type"@) == Some("Integer"@),
        w.text_or("0"@) == signed_decimal(v.properties.width as int),
        hn.tag@ == "imageHeight"@,
        hn.attribute_of("type"@) == Some("Integer"@),
        hn.text_or("0"@) == signed_decimal(v.properties.height as int),
        match v.mask {
            None => rep.children@ == seq![c, w, hn],
            Some(m) => rep.children@ == seq![c, mk, w, hn] && mk.tag@ == "imageMask"@ && mk.attribute_of(
                "type"@,
            ) == Some("Blob"@) && mk.attribute_of("fileOffset"@) == Some(decimal(m.offset as nat))
                && mk.attribute_of("length"@) == Some(decimal(m.length as nat)),
        },
    ensures
        visual_reference_of(rep) == Some(v),
{
    reveal_strlit("pngImage");
    reveal_strlit("jpegImage");
    reveal_strlit("imageMask");
    reveal_strlit("imageWidth");
    reveal_strlit("imageHeight");
    lemma_blob_element_reads_back(c, v.blob.data);
    match v.blob.format {
        ImageFormat::Png => lemma_blob_element_tag(t, "pngImage"@, v.blob.data.offset, v.blob.data.length),
        ImageFormat::Jpeg => lemma_blob_element_tag(t, "jpegImage"@, v.blob.data.offset, v.blob.data.length),
    }
    assert(t[0] != 'i');
    assert("imageMask"@[5] != "imageWidth"@[5]);
    assert("imageMask"@[5] != "imageHeight"@[5]);
    let n = rep.children@.len();
    let k: int = if v.mask is Some { 2 } else { 1 };
    assert(n == k + 2);
    assert(rep.children@[0] == c);
    assert(rep.children@[k] == w);
    assert(rep.children@[k + 1] == hn);
    // the image blob
    match v.blob.format {
        ImageFormat::Png => {
            assert forall|i: int| 0 <= i < n implies (#[trigger] rep.children@[i]).tag@ != "jpegImage"@ by {
                assert(rep.children@[i].tag@[0] != 'j');
            }
            lemma_no_child(rep, "jpegImage"@);
            assert(rep.first_child("pngImage"@, 0));
            lemma_child_at(rep, "pngImage"@, 0);
        },
        ImageFormat::Jpeg => {
            assert(rep.first_child("jpegImage"@, 0));
            lemma_child_at(rep, "jpegImage"@, 0);
        },
    }
    assert(image_blob_of(rep) == Some(v.blob));
    // the width and the height
    assert forall|j: int| 0 <= j < k implies (#[trigger] rep.children@[j]).tag@ != "imageWidth"@ by {
        if j > 0 {
            assert(rep.children@[j].tag@[5] != "imageWidth"@[5]);
        } else {
            assert(rep.children@[j].tag@[0] != "imageWidth"@[0]);
        }
    }
    assert(rep.first_child("imageWidth"@, k));
    lemma_u32_element(rep, "imageWidth"@, k, w, v.properties.width);
    assert forall|j: int| 0 <= j < k + 1 implies (#[trigger] rep.children@[j]).tag@ != "imageHeight"@ by {
        if j == k {
            assert(rep.children@[j].tag@.len() != "imageHeight"@.len());
        } else if j > 0 {
            assert(rep.children@[j].tag@[5] != "imageHeight"@[5]);
        } else {
            assert(rep.children@[j].tag@[0] != "imageHeight"@[0]);
        }
    }
    assert(rep.first_child("imageHeight"@, k + 1));
    lemma_u32_element(rep, "imageHeight"@, k + 1, hn, v.properties.height);
    // the mask
    match v.mask {
        None => {
            assert forall|i: int| 0 <= i < n implies (#[trigger] rep.children@[i]).tag@ != "imageMask"@ by {
                if i == 0 {
                    assert(rep.children@[i].tag@[0] != "imageMask"@[0]);
                } else {
                    assert(rep.children@[i].tag@.len() != "imageMask"@.len());
                }
            }
            lemma_no_child(rep, "imageMask"@);
        },
        Some(m) => {
            assert(rep.children@[0].tag@[0] != "imageMask"@[0]);
            assert(rep.first_child("imageMask"@, 1));
            lemma_child_at(rep, "imageMask"@, 1);
            lemma_blob_element_reads_back(mk, m);
        },
    }
}


/// A text that occurs in `a` also occurs in `a` followed or preceded by more text.
proof fn lemma_contains_grows(a: Seq<char>, b: Seq<char>, x: Seq<char>)
    requires
        contains(a, x),
    ensures
        contains(a + b, x),
        contains(b + a, x),
{
    let i = choose|i: int| 0 <= i && i + x.len() <= a.len() && #[trigger] a.subrange(i, i + x.len()) == x;
    assert((a + b).subrange(i, i + x.len()) =~= a.subrange(i, i + x.len()));
    assert((b + a).subrange(b.len() + i, b.len() + i + x.len()) =~= a.subrange(i, i + x.len()));
}

/// The declaration of an extension's namespace: its name bound to its URL.
pub open spec fn namespace_declaration(e: Extension) -> Seq<char> {
    " xmlns:"@ + e.namespace@ + "=\""@ + e.url@ + "\""@
}

/// Each extension is declared with its own name bound to its own URL among the namespace
/// declarations.
pub proof fn lemma_namespaces_declared(extensions: Seq<Extension>)
    ensures
        forall|i: int|
            0 <= i < extensions.len() ==> contains(namespaces_xml(extensions), namespace_declaration(#[trigger] extensions[i])),
    decreases extensions.len(),
{
    if extensions.len() > 0 {
        let rest = extensions.drop_last();
        lemma_namespaces_declared(rest);
        let d = namespace_declaration(extensions.last());
        assert(namespaces_xml(extensions) =~= namespaces_xml(rest) + d);
        assert forall|i: int| 0 <= i < extensions.len() implies contains(
            namespaces_xml(extensions),
            namespace_declaration(#[trigger] extensions[i]),
        ) by {
            if i < extensions.len() - 1 {
                assert(extensions[i] == rest[i]);
                lemma_contains_grows(namespaces_xml(rest), d, namespace_declaration(rest[i]));
            } else {
                lemma_contains(namespaces_xml(rest), d, Seq::empty());
                assert(namespaces_xml(rest) + d + Seq::<char>::empty() =~= namespaces_xml(rest) + d);
            }
        }
    }
}

/// The opening of the XML section declares each extension with its own name bound to its own
/// URL.
pub proof fn lemma_root_head_namespaces(root: Root, extensions: Seq<Extension>)
    ensures
        forall|i: int|
            0 <= i < extensions.len() ==> contains(root_head(root, extensions), namespace_declaration(#[trigger] extensions[i])),
{
    lemma_namespaces_declared(extensions);
    let a = "<?xml version=\"1.0\" encoding=\"UTF-8\"?>\n"@
        + "<e57Root type=\"Structure\" xmlns=\"http://www.astm.org/COMMIT/E57/2010-e57-v1.0\""@;
    let ns = namespaces_xml(extensions);
    let z = root_head(root, extensions).skip((a.len() + ns.len()) as int);
    assert(root_head(root, extensions) =~= a + ns + z);
    assert forall|i: int| 0 <= i < extensions.len() implies contains(
        root_head(root, extensions),
        namespace_declaration(#[trigger] extensions[i]),
    ) by {
        let x = namespace_declaration(extensions[i]);
        lemma_contains_grows(ns, z, x);
        lemma_contains_grows(ns + z, a, x);
        assert(a + (ns + z) =~= a + ns + z);
    }
}

/// Reading the extensions of a document takes, from each namespace declared with a name, the
/// name as the extension's namespace and the URI as its URL, in the order of declaration;
/// where every namespace has a name, there is one extension per namespace.
pub proof fn lemma_declared_extensions_named(ns: Seq<XmlNamespace>)
    requires
        forall|i: int| 0 <= i < ns.len() ==> (#[trigger] ns[i]).name is Some,
    ensures
        declared_extensions(ns).len() == ns.len(),
        forall|i: int|
            0 <= i < ns.len() ==> #[trigger] declared_extensions(ns)[i] == (ns[i].name->0@, ns[i].uri@),
    decreases ns.len(),
{
    if ns.len() > 0 {
        let rest = ns.drop_last();
        assert forall|i: int| 0 <= i < rest.len() implies (#[trigger] rest[i]).name is Some by {
            assert(rest[i] == ns[i]);
        }
        lemma_declared_extensions_named(rest);
        assert(ns[ns.len() - 1].name is Some);
        assert forall|i: int| 0 <= i < ns.len() implies #[trigger] declared_extensions(ns)[i] == (
            ns[i].name->0@,
            ns[i].uri@,
        ) by {
            if i < ns.len() - 1 {
                assert(rest[i] == ns[i]);
                assert(declared_extensions(ns)[i] == declared_extensions(rest)[i]);
            }
        }
    }
}

} // verus!
