use crate::error::{Error, Result};
use crate::extension::Extension;
use crate::xml::{element, gen_int, gen_string, signed_decimal, string_element};
use crate::xml_node::XmlNode;
use crate::xml_read::{has_type, opt_string, parse_i64, req_int, req_string};
use vstd::prelude::*;
use vstd::string::StringExecFns;

verus! {

/// The values of the root element of the XML section that all parts of a file share.
#[derive(Debug)]
pub struct Root {
    /// Name of the format, "ASTM E57 3D Imaging Data File".
    pub format: String,
    /// Globally unique identifier of the file.
    pub guid: String,
    /// Major version of the format.
    pub major_version: i64,
    /// Minor version of the format.
    pub minor_version: i64,
    /// Optional name and version of the library that wrote the file.
    pub library_version: Option<String>,
    /// Optional coordinate reference system in well-known text.
    pub coordinate_metadata: Option<String>,
}

/// The string element with the given tag name reads: it is missing, or of type `String`.
pub open spec fn string_ok(node: XmlNode, tag: Seq<char>) -> bool {
    match node.child_of(tag) {
        None => true,
        Some(c) => has_type(c, "String"@),
    }
}

/// The text of the string element with the given tag name, empty where it has none.
pub open spec fn string_text(node: XmlNode, tag: Seq<char>) -> Option<Seq<char>> {
    match node.child_of(tag) {
        None => None,
        Some(c) => Some(c.text_or(""@)),
    }
}

/// The integer element with the given tag name exists, is of type `Integer` and holds an `i64`.
pub open spec fn int_present(node: XmlNode, tag: Seq<char>) -> bool {
    match node.child_of(tag) {
        None => false,
        Some(c) => has_type(c, "Integer"@) && parse_i64(c.text_or("0"@)) is Some,
    }
}

/// The value of the integer element with the given tag name.
pub open spec fn int_value(node: XmlNode, tag: Seq<char>) -> Option<i64> {
    match node.child_of(tag) {
        None => None,
        Some(c) => parse_i64(c.text_or("0"@)),
    }
}

/// The optional string field holds the text of the element, where there is one.
pub open spec fn opt_text_is(v: Option<String>, t: Option<Seq<char>>) -> bool {
    match (v, t) {
        (Some(s), Some(u)) => s@ == u,
        (None, None) => true,
        _ => false,
    }
}

/// The shared values can be read from the root element: the format name, the GUID and the
/// versions are there, and every optional string present is of type `String`.
pub open spec fn root_ok(root: XmlNode) -> bool {
    string_text(root, "formatName"@) is Some && string_ok(root, "formatName"@) && string_text(root, "guid"@) is Some
        && string_ok(root, "guid"@) && int_present(root, "versionMajor"@) && int_present(root, "versionMinor"@)
        && string_ok(root, "coordinateMetadata"@) && string_ok(root, "e57LibraryVersion"@)
}

/// The shared values hold what the elements of the root element give.
pub open spec fn root_read(root: XmlNode, v: Root) -> bool {
    &&& Some(v.format@) == string_text(root, "formatName"@)
    &&& Some(v.guid@) == string_text(root, "guid"@)
    &&& Some(v.major_version) == int_value(root, "versionMajor"@)
    &&& Some(v.minor_version) == int_value(root, "versionMinor"@)
    &&& opt_text_is(v.coordinate_metadata, string_text(root, "coordinateMetadata"@))
    &&& opt_text_is(v.library_version, string_text(root, "e57LibraryVersion"@))
}

impl Root {
    /// Reads the shared values from the root element: the format name, the GUID and the
    /// versions, which must be there, and the optional library version and coordinate metadata.
    pub fn from_node(root: &XmlNode) -> (r: Result<Self>)
        ensures
            r is Ok <==> root_ok(*root),
            r matches Ok(v) ==> root_read(*root, v),
            r matches Err(e) ==> e is Invalid,
    {
        let format = match req_string(root, "formatName") {
            Ok(v) => v,
            Err(e) => {
                return Err(e);
            },
        };
        let guid = match req_string(root, "guid") {
            Ok(v) => v,
            Err(e) => {
                return Err(e);
            },
        };
        let major_version = match req_int(root, "versionMajor") {
            Ok(v) => v,
            Err(e) => {
                return Err(e);
            },
        };
        let minor_version = match req_int(root, "versionMinor") {
            Ok(v) => v,
            Err(e) => {
                return Err(e);
            },
        };
        let coordinate_metadata = match opt_string(root, "coordinateMetadata") {
            Ok(v) => v,
            Err(e) => {
                return Err(e);
            },
        };
        let library_version = match opt_string(root, "e57LibraryVersion") {
            Ok(v) => v,
            Err(e) => {
                return Err(e);
            },
        };
        Ok(Root { format, guid, major_version, minor_version, library_version, coordinate_metadata })
    }
}

/// The namespace declarations of the extensions, one after the other.
pub open spec fn namespaces_xml(extensions: Seq<Extension>) -> Seq<char>
    decreases extensions.len(),
{
    if extensions.len() == 0 {
        Seq::empty()
    } else {
        namespaces_xml(extensions.drop_last()) + " xmlns:"@ + extensions.last().namespace@ + "=\""@
            + extensions.last().url@ + "\""@
    }
}

/// The string element with the given tag name, where there is a value.
pub open spec fn opt_string_element(tag_name: Seq<char>, value: Option<String>) -> Seq<char> {
    match value {
        Some(v) => string_element(tag_name, v@),
        None => Seq::empty(),
    }
}

/// The opening of the XML section: the declaration, the root element with the namespace of
/// the format and those of the extensions, and the shared values.
pub open spec fn root_head(root: Root, extensions: Seq<Extension>) -> Seq<char> {
    "<?xml version=\"1.0\" encoding=\"UTF-8\"?>\n"@
        + "<e57Root type=\"Structure\" xmlns=\"http://www.astm.org/COMMIT/E57/2010-e57-v1.0\""@
        + namespaces_xml(extensions) + ">\n"@ + string_element("formatName"@, "ASTM E57 3D Imaging Data File"@)
        + string_element("guid"@, root.guid@) + element(
        "versionMajor"@,
        "Integer"@,
        signed_decimal(root.major_version as int),
    ) + element("versionMinor"@, "Integer"@, signed_decimal(root.minor_version as int))
        + opt_string_element("coordinateMetadata"@, root.coordinate_metadata) + opt_string_element(
        "e57LibraryVersion"@,
        root.library_version,
    )
}

impl Root {
    /// Generates the opening of the XML section, up to the shared values; fails for an empty GUID.
    pub fn xml_head(&self, extensions: &[Extension]) -> (r: Result<String>)
        ensures
            r is Ok <==> self.guid@.len() > 0,
            r matches Ok(s) ==> s@ == root_head(*self, extensions@),
            r matches Err(e) ==> e is Invalid,
    {
        if self.guid.as_str().unicode_len() == 0 {
            return Error::invalid("Empty file GUID is not allowed");
        }
        let mut xml = String::from_str("<?xml version=\"1.0\" encoding=\"UTF-8\"?>\n");
        xml.append("<e57Root type=\"Structure\" xmlns=\"http://www.astm.org/COMMIT/E57/2010-e57-v1.0\"");
        let ghost start = xml@;
        let mut i: usize = 0;
        while i < extensions.len()
            invariant
                i <= extensions@.len(),
                xml@ == start + namespaces_xml(extensions@.take(i as int)),
            decreases extensions@.len() - i,
        {
            proof {
                assert(extensions@.take(i + 1).drop_last() =~= extensions@.take(i as int));
            }
            xml.append(" xmlns:");
            xml.append(extensions[i].namespace.as_str());
            xml.append("=\"");
            xml.append(extensions[i].url.as_str());
            xml.append("\"");
            i = i + 1;
            assert(xml@ =~= start + namespaces_xml(extensions@.take(i as int)));
        }
        assert(extensions@.take(extensions@.len() as int) =~= extensions@);
        xml.append(">\n");
        xml.append(gen_string("formatName", "ASTM E57 3D Imaging Data File").as_str());
        xml.append(gen_string("guid", self.guid.as_str()).as_str());
        xml.append(gen_int("versionMajor", self.major_version).as_str());
        xml.append(gen_int("versionMinor", self.minor_version).as_str());
        let ghost before = xml@;
        match &self.coordinate_metadata {
            Some(cm) => {
                xml.append(gen_string("coordinateMetadata", cm.as_str()).as_str());
            },
            None => {
                assert(before + Seq::<char>::empty() =~= before);
            },
        }
        let ghost middle = xml@;
        match &self.library_version {
            Some(lv) => {
                xml.append(gen_string("e57LibraryVersion", lv.as_str()).as_str());
            },
            None => {
                assert(middle + Seq::<char>::empty() =~= middle);
            },
        }
        assert(xml@ =~= root_head(*self, extensions@));
        Ok(xml)
    }
}

} // verus!
