use crate::error::{Error, Result};
use crate::le_bytes::{le_at, read_u64_le};
use crate::paged_reader::PagedReader;
use crate::paged_writer::{lemma_overwrite_start, lemma_written_after_len, lemma_padded_written_twice, padded, written_at, PagedWriter};
use crate::record::{u64_le, u64_to_le_bytes};
use crate::xml::{decimal, u64_to_decimal};
use crate::xml_node::XmlNode;
use crate::xml_read::{has_type, parse_u64, str_to_u64};
use crate::text::str_eq;
use vstd::prelude::*;
use vstd::string::StringExecFns;

verus! {

/// Describes a binary data blob stored inside an E57 file.
#[derive(Clone, Debug)]
pub struct Blob {
    /// Physical file offset of the binary blob section in the E57 file.
    pub offset: u64,
    /// The logical size of the associated binary blob in bytes.
    pub length: u64,
}

/// Header of a blob section: section ID 0 and the length of the section.
pub struct BlobSectionHeader {
    /// Length of the blob data of the section.
    pub section_length: u64,
}

/// The 16 bytes `b` hold a blob section header: its first byte, the section ID, is zero.
pub open spec fn blob_header_valid(b: Seq<u8>) -> bool {
    b[0] == 0u8
}

/// The logical bytes `q .. q + n` of the reader's file exist and lie in pages with valid checksums.
pub open spec fn readable_at(reader: PagedReader, q: int, n: int) -> bool {
    n == 0 || (0 <= q && q + n <= reader.content().len() && forall|k: int|
        q <= k < q + n ==> #[trigger] reader.byte_valid(k))
}

/// The bytes of a blob section holding `data` that starts at logical offset `at`: the section
/// header, the data, and the zeros that align its end to four bytes.
pub open spec fn blob_section(data: Seq<u8>, at: int) -> Seq<u8> {
    let end = at + 16 + data.len();
    let k = if end % 4 == 0 {
        0
    } else {
        4 - end % 4
    };
    (BlobSectionHeader { section_length: data.len() as u64 }).bytes() + data + Seq::new(
        k as nat,
        |i: int| 0u8,
    )
}

/// The XML element that refers to a blob.
pub open spec fn blob_element(tag_name: Seq<char>, offset: u64, length: u64) -> Seq<char> {
    "<"@ + tag_name + " type=\"Blob\" fileOffset=\""@ + decimal(offset as nat) + "\" length=\""@
        + decimal(length as nat) + "\"/>\n"@
}

impl BlobSectionHeader {
    /// Parses a blob section header from its 16 bytes.
    pub fn from_array(buffer: &[u8; 16]) -> (r: Result<Self>)
        ensures
            r is Ok <==> blob_header_valid(buffer@),
            r matches Ok(h) ==> h.section_length == le_at(buffer@, 8, 8),
            r matches Err(e) ==> e is Invalid,
    {
        if buffer[0] != 0 {
            return Error::invalid("Section ID of the blob section header is not 0");
        }
        Ok(Self { section_length: read_u64_le(buffer.as_slice(), 8) })
    }

    /// Reads a blob section header at the current offset of a paged reader.
    pub fn from_reader(reader: &mut PagedReader) -> (r: Result<Self>)
        requires
            old(reader).wf(),
        ensures
            final(reader).wf(),
            final(reader).phys() == old(reader).phys(),
            final(reader).page_size_spec() == old(reader).page_size_spec(),
            r is Ok <==> old(reader).can_read(16) && blob_header_valid(old(reader).peek(16)),
            r matches Ok(h) ==> h.section_length == le_at(old(reader).peek(16), 8, 8) && final(reader).pos()
                == old(reader).pos() + 16,
            !old(reader).can_read(16) ==> (r matches Err(e) && e is Read),
            old(reader).can_read(16) && !blob_header_valid(old(reader).peek(16)) ==> (r matches Err(e)
                && e is Invalid),
    {
        let buffer = match reader.read_exact(16) {
            Ok(b) => b,
            Err(_) => {
                return Err(Error::Read { desc: "Failed to read blob section header".to_owned() });
            },
        };
        let array: [u8; 16] = [
            buffer[0],
            buffer[1],
            buffer[2],
            buffer[3],
            buffer[4],
            buffer[5],
            buffer[6],
            buffer[7],
            buffer[8],
            buffer[9],
            buffer[10],
            buffer[11],
            buffer[12],
            buffer[13],
            buffer[14],
            buffer[15],
        ];
        assert(array@ =~= buffer@);
        Self::from_array(&array)
    }

    /// The 16 bytes that represent this header in a file.
    pub open spec fn bytes(&self) -> Seq<u8> {
        Seq::new(8, |i: int| 0u8) + u64_le(self.section_length)
    }

    /// Writes the 16 bytes of this header at the current position of a paged writer.
    pub fn to_writer(&self, writer: &mut PagedWriter) -> (r: Result<()>)
        requires
            old(writer).wf(),
        ensures
            final(writer).wf(),
            r is Ok ==> final(writer).written_after(*old(writer), self.bytes()),
            old(writer).can_take(16) ==> r is Ok,
            r is Err ==> final(writer).file().len() + 2048 > usize::MAX,
            r matches Err(e) ==> e is Write,
    {
        let mut bytes: Vec<u8> = Vec::new();
        let mut i: usize = 0;
        while i < 8
            invariant
                i <= 8,
                bytes@ == Seq::new(i as nat, |k: int| 0u8),
            decreases 8 - i,
        {
            bytes.push(0);
            i = i + 1;
            assert(bytes@ =~= Seq::new(i as nat, |k: int| 0u8));
        }
        bytes.append(&mut u64_to_le_bytes(self.section_length));
        match writer.write_all(bytes.as_slice()) {
            Ok(()) => Ok(()),
            Err(_) => Err(Error::Write { desc: "Failed to write blob section header".to_owned() }),
        }
    }
}

impl Blob {
    /// The XML element that refers to this blob, with the given tag name.
    pub fn xml_string(&self, tag_name: &str) -> (r: String)
        ensures
            r@ == blob_element(tag_name@, self.offset, self.length),
    {
        let mut xml = String::from_str("<");
        xml.append(tag_name);
        xml.append(" type=\"Blob\" fileOffset=\"");
        xml.append(u64_to_decimal(self.offset).as_str());
        xml.append("\" length=\"");
        xml.append(u64_to_decimal(self.length).as_str());
        xml.append("\"/>\n");
        assert(xml@ =~= blob_element(tag_name@, self.offset, self.length));
        xml
    }

    /// Logical offset of the blob section in the reader's file.
    pub open spec fn section_start(&self, reader: PagedReader) -> int {
        self.offset - (self.offset as int / reader.page_size_spec()) * 4
    }

    /// Number of blob bytes that the reader's file holds after the blob section header.
    pub open spec fn data_size(&self, reader: PagedReader) -> int {
        let avail = reader.content().len() - (self.section_start(reader) + 16);
        if self.length < avail {
            self.length as int
        } else {
            avail
        }
    }

    /// The blob section can be read: the offset lies in the file, the section header is
    /// readable and valid, the blob length agrees with it, and the blob data is readable.
    pub open spec fn readable(&self, reader: PagedReader) -> bool {
        let p = self.section_start(reader);
        let header = Seq::new(16, |j: int| reader.content()[p + j]);
        &&& self.offset < reader.phys().len()
        &&& readable_at(reader, p, 16)
        &&& blob_header_valid(header)
        &&& self.length <= le_at(header, 8, 8) + 16
        &&& readable_at(reader, p + 16, self.data_size(reader))
    }

    /// Reads the data of this blob: the blob section header at the blob's physical offset,
    /// then up to `length` bytes, fewer where the file ends before.
    pub fn read(&self, reader: &mut PagedReader) -> (r: Result<Vec<u8>>)
        requires
            old(reader).wf(),
        ensures
            final(reader).wf(),
            final(reader).phys() == old(reader).phys(),
            final(reader).page_size_spec() == old(reader).page_size_spec(),
            r is Ok <==> self.readable(*old(reader)),
            r matches Ok(v) ==> v@ == old(reader).content().subrange(
                self.section_start(*old(reader)) + 16,
                self.section_start(*old(reader)) + 16 + self.data_size(*old(reader)),
            ),
            r matches Err(e) ==> (e is Read || e is Invalid),
    {
        let ghost r0 = *reader;
        match reader.seek_physical(self.offset) {
            Ok(_) => {},
            Err(_) => {
                return Err(Error::Read { desc: "Failed to seek to start offset of blob".to_owned() });
            },
        }
        let ghost p = self.section_start(r0);
        assert(reader.pos() == p);
        assert(reader.content() == r0.content());
        proof {
            assert forall|k: int| #![trigger reader.byte_valid(k)] #![trigger r0.byte_valid(k)] reader.byte_valid(k) == r0.byte_valid(k) by {}
            if reader.can_read(16) {
                assert(readable_at(r0, p, 16));
            }
            if readable_at(r0, p, 16) {
                assert forall|k: int| reader.pos() <= k < reader.pos() + 16 implies #[trigger] reader.byte_valid(k) by {
                    assert(r0.byte_valid(k));
                }
                assert(reader.can_read(16));
            }
            assert(reader.peek(16) =~= Seq::new(16, |j: int| r0.content()[p + j]));
        }
        let header = match BlobSectionHeader::from_reader(reader) {
            Ok(h) => h,
            Err(e) => {
                return Err(e);
            },
        };
        if self.length as u128 > header.section_length as u128 + 16 {
            return Error::invalid("Blob XML length and blob section header mismatch");
        }
        let size = reader.logical_size();
        let pos = reader.position();
        let avail = size - pos;
        let count: u64 = if self.length < avail {
            self.length
        } else {
            avail
        };
        assert(count <= reader.phys().len()) by {
            assert(reader.content().len() <= reader.phys().len()) by (nonlinear_arith)
                requires
                    reader.content().len() == ((reader.phys().len() as int) / reader.page_size_spec())
                        * (reader.page_size_spec() - 4),
                    reader.page_size_spec() > 4,
            ;
        }
        let len = reader.phys_len();
        let count_usize = count as usize;
        proof {
            assert forall|k: int| #![trigger reader.byte_valid(k)] #![trigger r0.byte_valid(k)] reader.byte_valid(k) == r0.byte_valid(k) by {}
            assert(reader.can_read(count as int) == readable_at(r0, p + 16, count as int));
        }
        match reader.read_exact(count_usize) {
            Ok(v) => {
                assert(v@ =~= r0.content().subrange(p + 16, p + 16 + count));
                Ok(v)
            },
            Err(_) => Err(Error::Read { desc: "Failed to read binary blob data".to_owned() }),
        }
    }

    /// Writes `data` as a blob section at the current position of a paged writer, followed by
    /// zeros up to the next 4-byte-aligned offset, and returns the blob that refers to it.
    /// Fails only where the file could not take another page.
    #[verifier::rlimit(40)]
    pub fn write(writer: &mut PagedWriter, data: &[u8]) -> (r: Result<Blob>)
        requires
            old(writer).wf(),
            data@.len() <= u64::MAX,
        ensures
            final(writer).wf(),
            r matches Ok(b) ==> (b.offset == old(writer).page_start() + old(writer).page_offset()
                && b.length == data@.len() && final(writer).written_after(
                *old(writer),
                blob_section(data@, old(writer).logical_position()),
            )),
            r is Err ==> final(writer).file().len() + 2048 > usize::MAX,
            r matches Err(e) ==> e is Write,
    {
        let ghost w0 = *writer;
        let ghost l0 = w0.logical_position();
        proof {
            w0.lemma_content();
            w0.lemma_position();
        }
        let start_offset = match writer.physical_position() {
            Ok(p) => p,
            Err(e) => {
                return Err(e);
            },
        };
        let mut section_header = BlobSectionHeader { section_length: 0 };
        let ghost h0 = section_header.bytes();
        match section_header.to_writer(writer) {
            Ok(()) => {},
            Err(e) => {
                return Err(e);
            },
        }
        match writer.write_all(data) {
            Ok(()) => {},
            Err(_) => {
                return Err(Error::Write { desc: "Failed to write blob data".to_owned() });
            },
        }
        let ghost w2 = *writer;
        proof {
            lemma_padded_written_twice(w0.content(), l0, h0, data@);
            w2.lemma_position();
        }
        let end_offset = match writer.physical_position() {
            Ok(p) => p,
            Err(e) => {
                return Err(e);
            },
        };
        section_header.section_length = data.len() as u64;
        let ghost h = section_header.bytes();
        proof {
            w2.lemma_content();
            lemma_written_after_len(w2, w0, h0 + data@);
            w2.lemma_phys_within(start_offset as int);
        }
        match writer.physical_seek(start_offset) {
            Ok(()) => {},
            Err(e) => {
                return Err(e);
            },
        }
        let ghost ws = *writer;
        match section_header.to_writer(writer) {
            Ok(()) => {},
            Err(e) => {
                return Err(e);
            },
        }
        let ghost w3 = *writer;
        proof {
            lemma_overwrite_start(w0.content(), l0, h0, h, data@);
            w3.lemma_content();
            lemma_written_after_len(w3, ws, h);
            w3.lemma_phys_within(end_offset as int);
        }
        match writer.physical_seek(end_offset) {
            Ok(()) => {},
            Err(e) => {
                return Err(e);
            },
        }
        let ghost w4 = *writer;
        proof {
            w4.lemma_position();
            w4.lemma_content();
        }
        match writer.align() {
            Ok(()) => {},
            Err(_) => {
                return Err(
                    Error::Write {
                        desc: "Failed to align writer on next 4-byte offset after writing blob section".to_owned(),
                    },
                );
            },
        }
        proof {
            let k = if w4.page_offset() % 4 == 0 {
                0
            } else {
                4 - w4.page_offset() % 4
            };
            let zeros = Seq::new(k as nat, |i: int| 0u8);
            lemma_padded_written_twice(w0.content(), l0, h + data@, zeros);
            assert(h + data@ + zeros == blob_section(data@, l0));
        }
        Ok(Blob { offset: start_offset, length: data.len() as u64 })
    }
}

/// The blob an XML element of type `Blob` refers to: its `fileOffset` and `length` attributes.
pub open spec fn blob_of(node: XmlNode) -> Option<Blob> {
    if node.attribute_of("type"@) == Some("Blob"@) {
        match (node.attribute_of("fileOffset"@), node.attribute_of("length"@)) {
            (Some(o), Some(l)) => match (parse_u64(o), parse_u64(l)) {
                (Some(offset), Some(length)) => Some(Blob { offset, length }),
                _ => None,
            },
            _ => None,
        }
    } else {
        None
    }
}

impl Blob {
    /// Reads the blob that an XML element of type `Blob` refers to.
    pub fn from_node(node: &XmlNode) -> (r: Result<Self>)
        ensures
            match blob_of(*node) {
                Some(b) => r matches Ok(v) && v.offset == b.offset && v.length == b.length,
                None => r matches Err(e) && e is Invalid,
            },
    {
        let is_blob = match node.attribute("type") {
            Some(t) => str_eq(t, "Blob"),
            None => false,
        };
        if !is_blob {
            return Error::invalid("The supplied tag is not a blob");
        }
        let offset = match node.attribute("fileOffset") {
            Some(o) => o,
            None => {
                return Error::invalid("Failed to find 'fileOffset' attribute in blob tag");
            },
        };
        let offset = match str_to_u64(offset) {
            Some(v) => v,
            None => {
                return Error::invalid("Unable to parse offset as u64");
            },
        };
        let length = match node.attribute("length") {
            Some(l) => l,
            None => {
                return Error::invalid("Failed to find 'length' attribute in blob tag");
            },
        };
        let length = match str_to_u64(length) {
            Some(v) => v,
            None => {
                return Error::invalid("Unable to parse length as u64");
            },
        };
        Ok(Self { offset, length })
    }

    /// Reads the blob that the first child element with the given tag name refers to, if
    /// there is such an element.
    pub fn from_parent_node(tag_name: &str, parent_node: &XmlNode) -> (r: Result<Option<Self>>)
        ensures
            match parent_node.child_of(tag_name@) {
                None => r matches Ok(None),
                Some(c) => match blob_of(c) {
                    Some(b) => r matches Ok(Some(v)) && v.offset == b.offset && v.length == b.length,
                    None => r matches Err(e) && e is Invalid,
                },
            },
    {
        match parent_node.child(tag_name) {
            Some(node) => match Self::from_node(node) {
                Ok(b) => Ok(Some(b)),
                Err(e) => Err(e),
            },
            None => Ok(None),
        }
    }
}

} // verus!
