use crate::descriptor::{entries, head_ok, head_read, PointCloudHead};
use crate::e57_file::{extract_xml, logical_readable, MAX_XML_SIZE};
use crate::error::{Error, Result};
use crate::extension::{declared_extensions, Extension};
use crate::header::{header_supported, parsed_header_fields, Header};
use crate::le_bytes::le_at;
use crate::paged_reader::{logical, page_valid, PagedReader};
use crate::root::{root_ok, root_read, Root};
use crate::xml_node::XmlNode;
use crate::xml_parse::{parse_xml, utf8_string, utf8_text, xml_tree};
use vstd::prelude::*;

verus! {

/// What reading an E57 file gives: its header, a paged reader over its bytes, the text and
/// the element tree of its XML section, the shared values of the root element, the declared
/// extensions and the parts without floating point values of the point cloud descriptors.
pub struct FileContents {
    pub header: Header,
    pub reader: PagedReader,
    pub xml: String,
    pub tree: XmlNode,
    pub root: Root,
    pub extensions: Vec<Extension>,
    pub pointclouds: Vec<PointCloudHead>,
}

/// The page size that the header of the file names.
pub open spec fn page_size_of(bytes: Seq<u8>) -> int {
    le_at(bytes, 40, 8) as int
}

/// The logical offset of the XML section that the header of the file names.
pub open spec fn xml_start_of(bytes: Seq<u8>) -> int {
    let offset = le_at(bytes, 24, 8) as int;
    offset - (offset / page_size_of(bytes)) * 4
}

/// The length of the XML section that the header of the file names.
pub open spec fn xml_length_of(bytes: Seq<u8>) -> int {
    le_at(bytes, 32, 8) as int
}

/// The bytes of the XML section: the logical bytes where the header places it.
pub open spec fn xml_bytes(bytes: Seq<u8>) -> Seq<u8> {
    Seq::new(
        xml_length_of(bytes) as nat,
        |j: int| logical(bytes, page_size_of(bytes))[xml_start_of(bytes) + j],
    )
}

/// The binary layer of the file reads: a supported header, whole pages, and an XML section of
/// a supported size inside the file whose pages have valid checksums.
pub open spec fn layer_ok(bytes: Seq<u8>) -> bool {
    &&& bytes.len() >= 48
    &&& header_supported(bytes)
    &&& (bytes.len() as int) % page_size_of(bytes) == 0
    &&& xml_length_of(bytes) <= MAX_XML_SIZE
    &&& le_at(bytes, 24, 8) < bytes.len()
    &&& logical_readable(bytes, page_size_of(bytes), xml_start_of(bytes), xml_length_of(bytes))
}

/// The XML text decodes, parses, and holds readable shared values and a `data3D` element whose
/// point cloud entries read.
pub open spec fn xml_ok(bytes: Seq<u8>) -> bool {
    match utf8_text(xml_bytes(bytes)) {
        None => false,
        Some(t) => match xml_tree(t) {
            None => false,
            Some(tree) => root_ok(tree) && match tree.child_of("data3D"@) {
                None => false,
                Some(d) => forall|k: int| 0 <= k < entries(d.children@).len() ==> head_ok(#[trigger] entries(d.children@)[k]),
            },
        },
    }
}

/// Reads an E57 file from its bytes: the header, the XML section through the page layer, its
/// UTF-8 text and element tree, the shared values, the extensions and the point cloud entries
/// of the `data3D` element.
pub fn read_file_contents(bytes: Vec<u8>) -> (r: Result<FileContents>)
    requires
        bytes@.len() + 8 <= u64::MAX,
    ensures
        r is Ok <==> layer_ok(bytes@) && xml_ok(bytes@),
        bytes@.len() < 48 ==> (r matches Err(e) && e is Read),
        bytes@.len() >= 48 && !header_supported(bytes@) ==> (r matches Err(e) && e is Invalid),
        bytes@.len() >= 48 && header_supported(bytes@) && xml_length_of(bytes@) > MAX_XML_SIZE ==> (r matches Err(
            e,
        ) && e is NotImplemented),
        layer_ok(bytes@) && !xml_ok(bytes@) ==> (r matches Err(e) && (e is Invalid || e is Read)),
        r matches Ok(f) ==> {
            &&& parsed_header_fields(bytes@, f.header)
            &&& f.reader.wf()
            &&& f.reader.phys() == bytes@
            &&& f.reader.page_size_spec() == f.header.page_size
            &&& utf8_text(xml_bytes(bytes@)) == Some(f.xml@)
            &&& xml_tree(f.xml@) == Some(f.tree)
            &&& root_read(f.tree, f.root)
            &&& f.extensions@.len() == declared_extensions(f.tree.namespaces@).len()
            &&& forall|i: int| 0 <= i < f.extensions@.len() ==> (#[trigger] f.extensions@[i]).namespace@
                == declared_extensions(f.tree.namespaces@)[i].0 && f.extensions@[i].url@ == declared_extensions(
                f.tree.namespaces@,
            )[i].1
            &&& f.tree.child_of("data3D"@) matches Some(d) && f.pointclouds@.len() == entries(d.children@).len()
                && forall|k: int| 0 <= k < f.pointclouds@.len() ==> head_read(entries(d.children@)[k], #[trigger] f.pointclouds@[k])
        },
{
    let header = match Header::read(bytes.as_slice()) {
        Ok(h) => h,
        Err(e) => {
            return Err(e);
        },
    };
    if header.xml_length > MAX_XML_SIZE as u64 {
        return Error::not_implemented("XML sections larger than 52428800 bytes are not supported");
    }
    let ghost b = bytes@;
    let mut reader = match PagedReader::new(bytes, header.page_size) {
        Ok(r) => r,
        Err(_) => {
            return Err(Error::Read { desc: "Failed creating paged CRC reader".to_owned() });
        },
    };
    proof {
        let p = xml_start_of(b);
        let n = xml_length_of(b);
        let ps = page_size_of(b);
        if crate::blob::readable_at(reader, p, n) {
            assert forall|k: int| p <= k < p + n implies #[trigger] page_valid(b, ps, k / (ps - 4)) by {
                assert(reader.byte_valid(k));
            }
        }
        if logical_readable(b, ps, p, n) {
            assert forall|k: int| p <= k < p + n implies #[trigger] reader.byte_valid(k) by {
                assert(page_valid(b, ps, k / (ps - 4)));
            }
        }
        assert(crate::blob::readable_at(reader, p, n) == logical_readable(b, ps, p, n));
    }
    let xml_raw = match extract_xml(&mut reader, header.phys_xml_offset, header.xml_length as usize) {
        Ok(v) => v,
        Err(e) => {
            return Err(e);
        },
    };
    assert(xml_raw@ =~= xml_bytes(b));
    let xml = match utf8_string(xml_raw) {
        Some(s) => s,
        None => {
            return Err(Error::Read { desc: "Failed to parse XML as UTF8".to_owned() });
        },
    };
    let tree = match parse_xml(xml.as_str()) {
        Some(t) => t,
        None => {
            return Error::invalid("Failed to parse XML data");
        },
    };
    let root = match Root::from_node(&tree) {
        Ok(v) => v,
        Err(e) => {
            return Err(e);
        },
    };
    let pointclouds = match tree.child("data3D") {
        Some(d) => match PointCloudHead::vec_from_data3d(d) {
            Ok(v) => v,
            Err(e) => {
                return Err(e);
            },
        },
        None => {
            return Error::invalid("Cannot find 'data3D' tag in XML document");
        },
    };
    let extensions = Extension::vec_from_document(&tree);
    Ok(FileContents { header, reader, xml, tree, root, extensions, pointclouds })
}

} // verus!
