use crate::error::{Error, Result};
use crate::le_bytes::{le_at, lemma_le_u32, lemma_le_u64, read_u32_le, read_u64_le};
use crate::paged_writer::PagedWriter;
use crate::record::{u32_le, u32_to_le_bytes, u64_le, u64_to_le_bytes};
use vstd::prelude::*;

verus! {

/// Major version of the E57 format that this library supports.
pub const MAJOR_VERSION: u32 = 1;

/// Minor version of the E57 format that this library supports.
pub const MINOR_VERSION: u32 = 0;

/// Page size of E57 files.
pub const PAGE_SIZE: u64 = 1024;

/// Size of the file header in bytes.
pub const HEADER_SIZE: usize = 48;

/// The file header signature "ASTM-E57".
pub open spec fn signature_spec() -> Seq<u8> {
    seq![65u8, 83u8, 84u8, 77u8, 45u8, 69u8, 53u8, 55u8]
}

/// The file header signature "ASTM-E57".
pub fn signature_bytes() -> (r: [u8; 8])
    ensures
        r@ == signature_spec(),
{
    let r = [65u8, 83u8, 84u8, 77u8, 45u8, 69u8, 53u8, 55u8];
    assert(r@ =~= signature_spec());
    r
}

/// Represents the file structure from the start of an E57 file.
#[derive(Clone, Debug)]
pub struct Header {
    /// File header signature that must be always "ASTM-E57".
    pub signature: [u8; 8],
    /// Major version number of the E57 format of the file.
    pub major: u32,
    /// Minor version number of the E57 format of the file.
    pub minor: u32,
    /// Physical length of the E57 file on disk or in memory.
    pub phys_length: u64,
    /// Physical offset of the XML data inside the file.
    pub phys_xml_offset: u64,
    /// Logical (without CRC bytes) length of the XML data.
    pub xml_length: u64,
    /// Page size of the E57 file.
    pub page_size: u64,
}

/// The header that the first 48 bytes of `b` hold.
pub open spec fn parsed_header_fields(b: Seq<u8>, h: Header) -> bool {
    &&& h.signature@ == b.subrange(0, 8)
    &&& h.major == le_at(b, 8, 4)
    &&& h.minor == le_at(b, 12, 4)
    &&& h.phys_length == le_at(b, 16, 8)
    &&& h.phys_xml_offset == le_at(b, 24, 8)
    &&& h.xml_length == le_at(b, 32, 8)
    &&& h.page_size == le_at(b, 40, 8)
}

/// The first 48 bytes of `b` hold a header this library supports.
pub open spec fn header_supported(b: Seq<u8>) -> bool {
    &&& b.subrange(0, 8) == signature_spec()
    &&& le_at(b, 8, 4) == MAJOR_VERSION
    &&& le_at(b, 12, 4) == MINOR_VERSION
    &&& le_at(b, 40, 8) == PAGE_SIZE
}

impl Header {
    /// Reads an E57 file header from the first 48 bytes of `data`.
    pub fn read(data: &[u8]) -> (r: Result<Self>)
        ensures
            r is Ok <==> data@.len() >= 48 && header_supported(data@),
            r matches Ok(h) ==> parsed_header_fields(data@, h),
            data@.len() < 48 ==> (r matches Err(e) && e is Read),
            data@.len() >= 48 && !header_supported(data@) ==> (r matches Err(e) && e is Invalid),
    {
        if data.len() < HEADER_SIZE {
            return Err(Error::Read { desc: "Failed to read E57 file header".to_owned() });
        }
        let signature = [data[0], data[1], data[2], data[3], data[4], data[5], data[6], data[7]];
        let header = Header {
            signature,
            major: read_u32_le(data, 8),
            minor: read_u32_le(data, 12),
            phys_length: read_u64_le(data, 16),
            phys_xml_offset: read_u64_le(data, 24),
            xml_length: read_u64_le(data, 32),
            page_size: read_u64_le(data, 40),
        };
        assert(header.signature@ =~= data@.subrange(0, 8));
        let expected = signature_bytes();
        let mut i: usize = 0;
        while i < 8
            invariant
                i <= 8,
                data@.len() >= 48,
                expected@ == signature_spec(),
                header.signature@ == data@.subrange(0, 8),
                forall|k: int| 0 <= k < i ==> header.signature@[k] == expected@[k],
            decreases 8 - i,
        {
            if header.signature[i] != expected[i] {
                return Error::invalid("Found unsupported signature in header");
            }
            i = i + 1;
        }
        assert(header.signature@ =~= signature_spec());
        if header.major != MAJOR_VERSION {
            return Error::invalid("Found unsupported major version in header");
        }
        if header.minor != MINOR_VERSION {
            return Error::invalid("Found unsupported minor version in header");
        }
        if header.page_size != PAGE_SIZE {
            return Error::invalid("Found unsupported page size in header");
        }
        Ok(header)
    }

    /// The 48 bytes that represent this header in a file.
    pub open spec fn bytes(&self) -> Seq<u8> {
        self.signature@ + u32_le(self.major) + u32_le(self.minor) + u64_le(self.phys_length) + u64_le(
            self.phys_xml_offset,
        ) + u64_le(self.xml_length) + u64_le(self.page_size)
    }

    /// The 48 bytes that represent this header in a file.
    pub fn to_bytes(&self) -> (r: Vec<u8>)
        ensures
            r@ == self.bytes(),
    {
        let mut r: Vec<u8> = Vec::new();
        let mut i: usize = 0;
        while i < 8
            invariant
                i <= 8,
                r@ == self.signature@.subrange(0, i as int),
            decreases 8 - i,
        {
            r.push(self.signature[i]);
            i = i + 1;
            assert(r@ == self.signature@.subrange(0, i as int));
        }
        assert(self.signature@.subrange(0, 8) == self.signature@);
        r.append(&mut u32_to_le_bytes(self.major));
        r.append(&mut u32_to_le_bytes(self.minor));
        r.append(&mut u64_to_le_bytes(self.phys_length));
        r.append(&mut u64_to_le_bytes(self.phys_xml_offset));
        r.append(&mut u64_to_le_bytes(self.xml_length));
        r.append(&mut u64_to_le_bytes(self.page_size));
        r
    }

    /// Writes the 48 bytes of this header at the current position of a paged writer.
    pub fn write(&self, writer: &mut PagedWriter) -> (r: Result<()>)
        requires
            old(writer).wf(),
        ensures
            final(writer).wf(),
            r is Ok ==> final(writer).written_after(*old(writer), self.bytes()),
            old(writer).can_take(48) ==> r is Ok,
            r is Err ==> final(writer).file().len() + 2048 > usize::MAX,
            r matches Err(e) ==> e is Write,
    {
        let bytes = self.to_bytes();
        match writer.write_all(bytes.as_slice()) {
            Ok(()) => Ok(()),
            Err(_) => Err(Error::Write { desc: "Failed to write E57 file header".to_owned() }),
        }
    }

    /// The default header: supported signature, version and page size, all other values zero.
    pub fn default() -> (r: Self)
        ensures
            r.signature@ == signature_spec(),
            r.major == MAJOR_VERSION,
            r.minor == MINOR_VERSION,
            r.phys_length == 0,
            r.phys_xml_offset == 0,
            r.xml_length == 0,
            r.page_size == PAGE_SIZE,
    {
        Header {
            signature: signature_bytes(),
            major: MAJOR_VERSION,
            minor: MINOR_VERSION,
            phys_length: 0,
            phys_xml_offset: 0,
            xml_length: 0,
            page_size: PAGE_SIZE,
        }
    }
}

/// A header turned into its 48 bytes reads back as the same header, and as one this library
/// supports where its signature, version and page size are the supported ones.
pub proof fn lemma_header_roundtrip(h: Header)
    ensures
        h.bytes().len() == 48,
        parsed_header_fields(h.bytes(), h),
        header_supported(h.bytes()) <==> (h.signature@ == signature_spec() && h.major == MAJOR_VERSION
            && h.minor == MINOR_VERSION && h.page_size == PAGE_SIZE),
{
    let b = h.bytes();
    assert(b.subrange(0, 8) =~= h.signature@);
    assert(b.subrange(8, 12) =~= u32_le(h.major));
    assert(b.subrange(12, 16) =~= u32_le(h.minor));
    assert(b.subrange(16, 24) =~= u64_le(h.phys_length));
    assert(b.subrange(24, 32) =~= u64_le(h.phys_xml_offset));
    assert(b.subrange(32, 40) =~= u64_le(h.xml_length));
    assert(b.subrange(40, 48) =~= u64_le(h.page_size));
    lemma_le_u32(h.major);
    lemma_le_u32(h.minor);
    lemma_le_u64(h.phys_length);
    lemma_le_u64(h.phys_xml_offset);
    lemma_le_u64(h.xml_length);
    lemma_le_u64(h.page_size);
}


/// A header that a paged writer writes at the start of a file reads back: the first 48 bytes
/// of the file hold its bytes, which `read` accepts exactly where the signature, version and
/// page size are the supported ones, and any header read from them has its fields.
pub proof fn lemma_header_write_read(h: Header, w0: PagedWriter, w1: PagedWriter, h2: Header)
    requires
        w0.wf(),
        w1.wf(),
        w0.logical_position() == 0,
        w1.written_after(w0, h.bytes()),
    ensures
        w1.flushed().len() >= 48,
        w1.flushed().subrange(0, 48) == h.bytes(),
        header_supported(w1.flushed()) <==> (h.signature@ == signature_spec() && h.major == MAJOR_VERSION
            && h.minor == MINOR_VERSION && h.page_size == PAGE_SIZE),
        parsed_header_fields(w1.flushed(), h2) ==> (h2.signature@ == h.signature@ && h2.major == h.major
            && h2.minor == h.minor && h2.phys_length == h.phys_length && h2.phys_xml_offset
            == h.phys_xml_offset && h2.xml_length == h.xml_length && h2.page_size == h.page_size),
{
    lemma_header_roundtrip(h);
    w1.lemma_content();
    crate::paged_writer::lemma_written_after_len(w1, w0, h.bytes());
    let f = w1.flushed();
    let b = h.bytes();
    let x = crate::paged_writer::written_at(w0.content(), 0, b);
    assert(f.len() >= 1024) by {
        assert(w1.content().len() >= 48);
        assert(w1.content().len() == (f.len() / 1024) * 1020);
    }
    assert forall|j: int| 0 <= j < 48 implies #[trigger] f[j] == b[j] by {
        assert(x[j] == b[j]);
        assert(crate::paged_writer::padded(x)[j] == x[j]);
        assert(w1.content()[j] == f[(j / 1020) * 1024 + j % 1020]);
    }
    assert(f.subrange(0, 48) =~= b);
    assert(f.subrange(0, 8) =~= b.subrange(0, 8));
    assert(le_at(f, 8, 4) == le_at(b, 8, 4)) by {
        assert(f.subrange(8, 12) =~= b.subrange(8, 12));
    }
    assert(le_at(f, 12, 4) == le_at(b, 12, 4)) by {
        assert(f.subrange(12, 16) =~= b.subrange(12, 16));
    }
    assert(le_at(f, 16, 8) == le_at(b, 16, 8)) by {
        assert(f.subrange(16, 24) =~= b.subrange(16, 24));
    }
    assert(le_at(f, 24, 8) == le_at(b, 24, 8)) by {
        assert(f.subrange(24, 32) =~= b.subrange(24, 32));
    }
    assert(le_at(f, 32, 8) == le_at(b, 32, 8)) by {
        assert(f.subrange(32, 40) =~= b.subrange(32, 40));
    }
    assert(le_at(f, 40, 8) == le_at(b, 40, 8)) by {
        assert(f.subrange(40, 48) =~= b.subrange(40, 48));
    }
}

} // verus!
