use crate::blob::{blob_element, blob_of, Blob};
use crate::error::{Error, Result};
use crate::xml_node::XmlNode;
use crate::xml_read::{has_type, parse_i64, req_int};
use crate::xml::{element, gen_int, signed_decimal};
use vstd::prelude::*;
use vstd::string::StringExecFns;

verus! {

/// File format of an image stored inside the E57 file as blob.
#[derive(Clone, Copy, Debug, PartialEq, Eq, Structural)]
pub enum ImageFormat {
    /// Portable Network Graphics (PNG) image format.
    Png,
    /// JPEG File Interchange Format (JFIF) image format.
    Jpeg,
}

/// Contains a blob with image data and the corresponding file type.
#[derive(Clone, Debug)]
pub struct ImageBlob {
    /// Descriptor for the binary blob of the image.
    pub data: Blob,
    /// Image format of the file referenced by the blob.
    pub format: ImageFormat,
}

/// Properties of a visual reference image.
#[derive(Clone, Debug)]
pub struct VisualReferenceImageProperties {
    /// Width of the image in pixels.
    pub width: u32,
    /// Height of the image in pixels.
    pub height: u32,
}

/// A visual reference image for preview and illustration purposes.
///
/// Such images cannot be mapped to points and are not projectable.
#[derive(Clone, Debug)]
pub struct VisualReferenceImage {
    /// Reference to the binary image data.
    pub blob: ImageBlob,
    /// Properties of the visual reference image.
    pub properties: VisualReferenceImageProperties,
    /// Reference to a PNG image with a mask for non-rectangular images: non-zero pixels mark
    /// where the image is valid. It has the dimensions of the image.
    pub mask: Option<Blob>,
}

impl ImageBlob {
    /// The XML element that refers to the image blob, named after its format.
    pub open spec fn xml(&self) -> Seq<char> {
        match self.format {
            ImageFormat::Png => blob_element("pngImage"@, self.data.offset, self.data.length),
            ImageFormat::Jpeg => blob_element("jpegImage"@, self.data.offset, self.data.length),
        }
    }

    /// Serializes the reference to the image blob as XML element.
    pub fn xml_string(&self) -> (r: String)
        ensures
            r@ == self.xml(),
    {
        match self.format {
            ImageFormat::Png => self.data.xml_string("pngImage"),
            ImageFormat::Jpeg => self.data.xml_string("jpegImage"),
        }
    }
}

impl VisualReferenceImage {
    /// The XML structure of the visual reference image.
    pub open spec fn xml(&self) -> Seq<char> {
        "<visualReferenceRepresentation type=\"Structure\">\n"@ + self.blob.xml() + match self.mask {
            Some(m) => blob_element("imageMask"@, m.offset, m.length),
            None => Seq::empty(),
        } + element("imageWidth"@, "Integer"@, signed_decimal(self.properties.width as int)) + element(
            "imageHeight"@,
            "Integer"@,
            signed_decimal(self.properties.height as int),
        ) + "</visualReferenceRepresentation>\n"@
    }

    /// Serializes the visual reference image as XML structure.
    pub fn xml_string(&self) -> (r: String)
        ensures
            r@ == self.xml(),
    {
        let mut xml = String::new();
        xml.append("<visualReferenceRepresentation type=\"Structure\">\n");
        xml.append(self.blob.xml_string().as_str());
        let ghost before_mask = xml@;
        match &self.mask {
            Some(mask) => {
                xml.append(mask.xml_string("imageMask").as_str());
            },
            None => {
                assert(before_mask + Seq::<char>::empty() =~= before_mask);
            },
        }
        xml.append(gen_int("imageWidth", self.properties.width as i64).as_str());
        xml.append(gen_int("imageHeight", self.properties.height as i64).as_str());
        xml.append("</visualReferenceRepresentation>\n");
        assert(xml@ =~= self.xml());
        xml
    }
}

/// The image blob of a representation element: its `jpegImage` child, else its `pngImage`
/// child; `None` where neither exists or the blob element is invalid.
pub open spec fn image_blob_of(rep: XmlNode) -> Option<ImageBlob> {
    match rep.child_of("jpegImage"@) {
        Some(c) => match blob_of(c) {
            Some(b) => Some(ImageBlob { data: b, format: ImageFormat::Jpeg }),
            None => None,
        },
        None => match rep.child_of("pngImage"@) {
            Some(c) => match blob_of(c) {
                Some(b) => Some(ImageBlob { data: b, format: ImageFormat::Png }),
                None => None,
            },
            None => None,
        },
    }
}

/// The visual reference image that a representation element describes: its image blob, its
/// mask where it has one, and its width and height; `None` where one of these does not read.
pub open spec fn visual_reference_of(node: XmlNode) -> Option<VisualReferenceImage> {
    match (image_blob_of(node), u32_value_of(node, "imageWidth"@), u32_value_of(node, "imageHeight"@)) {
        (Some(b), Some(w), Some(h)) => {
            let properties = VisualReferenceImageProperties { width: w, height: h };
            match node.child_of("imageMask"@) {
                None => Some(VisualReferenceImage { blob: b, properties, mask: None }),
                Some(c) => match blob_of(c) {
                    Some(m) => Some(VisualReferenceImage { blob: b, properties, mask: Some(m) }),
                    None => None,
                },
            }
        },
        _ => None,
    }
}

/// The value of the integer element with the given tag name, where it is a `u32`.
pub open spec fn u32_value_of(node: XmlNode, tag: Seq<char>) -> Option<u32> {
    match node.child_of(tag) {
        Some(c) => if has_type(c, "Integer"@) {
            match parse_i64(c.text_or("0"@)) {
                Some(v) => if 0 <= v <= u32::MAX {
                    Some(v as u32)
                } else {
                    None
                },
                None => None,
            }
        } else {
            None
        },
        None => None,
    }
}

/// Reads the integer element with the given tag name as `u32`.
fn req_u32(node: &XmlNode, tag_name: &str) -> (r: Result<u32>)
    ensures
        match u32_value_of(*node, tag_name@) {
            Some(v) => r == Ok::<u32, Error>(v),
            None => r matches Err(e) && e is Invalid,
        },
{
    match req_int(node, tag_name) {
        Ok(v) => {
            if v < 0 || v > 0xffff_ffff {
                return Error::invalid("Integer value does not fit the expected type");
            }
            Ok(v as u32)
        },
        Err(e) => Err(e),
    }
}

impl ImageBlob {
    /// Reads the image blob of a representation element: a JPEG blob, else a PNG blob.
    pub fn from_rep_node(rep_node: &XmlNode) -> (r: Result<Self>)
        ensures
            match image_blob_of(*rep_node) {
                Some(b) => r matches Ok(v) && v.data.offset == b.data.offset && v.data.length == b.data.length
                    && v.format == b.format,
                None => r matches Err(e) && e is Invalid,
            },
    {
        match rep_node.child("jpegImage") {
            Some(node) => match Blob::from_node(node) {
                Ok(data) => Ok(Self { data, format: ImageFormat::Jpeg }),
                Err(e) => Err(e),
            },
            None => match rep_node.child("pngImage") {
                Some(node) => match Blob::from_node(node) {
                    Ok(data) => Ok(Self { data, format: ImageFormat::Png }),
                    Err(e) => Err(e),
                },
                None => Error::invalid("Cannot find PNG or JPEG blob"),
            },
        }
    }
}

impl VisualReferenceImage {
    /// Reads a visual reference image from its XML structure: the image blob, the optional
    /// mask and the dimensions, in this order.
    pub fn from_node(node: &XmlNode) -> (r: Result<Self>)
        ensures
            r is Ok <==> image_blob_of(*node) is Some && (match node.child_of("imageMask"@) {
                Some(c) => blob_of(c) is Some,
                None => true,
            }) && u32_value_of(*node, "imageWidth"@) is Some && u32_value_of(*node, "imageHeight"@) is Some,
            r matches Ok(v) ==> ({
                let b = image_blob_of(*node)->0;
                &&& v.blob.data.offset == b.data.offset
                &&& v.blob.data.length == b.data.length
                &&& v.blob.format == b.format
                &&& v.mask is Some == node.child_of("imageMask"@) is Some
                &&& v.mask matches Some(m) ==> Some(m) == blob_of(node.child_of("imageMask"@)->0)
                &&& Some(v.properties.width) == u32_value_of(*node, "imageWidth"@)
                &&& Some(v.properties.height) == u32_value_of(*node, "imageHeight"@)
            }),
            r matches Err(e) ==> e is Invalid,
            r is Ok <==> visual_reference_of(*node) is Some,
            r matches Ok(v) ==> visual_reference_of(*node) == Some(v),
    {
        let blob = match ImageBlob::from_rep_node(node) {
            Ok(b) => b,
            Err(e) => {
                return Err(e);
            },
        };
        let mask = match Blob::from_parent_node("imageMask", node) {
            Ok(m) => m,
            Err(e) => {
                return Err(e);
            },
        };
        let width = match req_u32(node, "imageWidth") {
            Ok(v) => v,
            Err(e) => {
                return Err(e);
            },
        };
        let height = match req_u32(node, "imageHeight") {
            Ok(v) => v,
            Err(e) => {
                return Err(e);
            },
        };
        Ok(Self { blob, mask, properties: VisualReferenceImageProperties { width, height } })
    }
}

} // verus!
