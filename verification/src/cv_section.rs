use crate::error::{Error, Result};
use crate::le_bytes::{le_at, lemma_le_u64, read_u64_le};
use crate::paged_reader::PagedReader;
use crate::paged_writer::PagedWriter;
use crate::record::{u64_le, u64_to_le_bytes};
use vstd::prelude::*;

verus! {

/// Size of a compressed vector section header in bytes.
pub const CV_SECTION_HEADER_SIZE: u64 = 32;

/// Header of a compressed vector section, which holds the packets of a point cloud.
#[derive(Debug)]
pub struct CompressedVectorSectionHeader {
    /// Section ID; 1 for compressed vector sections.
    pub section_id: u8,
    /// Length of the section in bytes, including this header.
    pub section_length: u64,
    /// Physical file offset of the first data packet.
    pub data_offset: u64,
    /// Physical file offset of the first index packet.
    pub index_offset: u64,
}

/// The 32 bytes `b` hold a compressed vector section header: section ID 1 and a length
/// that is a multiple of four.
pub open spec fn cv_header_valid(b: Seq<u8>) -> bool {
    b[0] == 1u8 && le_at(b, 8, 8) % 4 == 0
}

impl CompressedVectorSectionHeader {
    /// The section ID of the header.
    pub open spec fn id(&self) -> u8 {
        self.section_id
    }

    /// Reads a compressed vector section header at the current offset of a paged reader.
    pub fn read(reader: &mut PagedReader) -> (r: Result<CompressedVectorSectionHeader>)
        requires
            old(reader).wf(),
        ensures
            final(reader).wf(),
            final(reader).phys() == old(reader).phys(),
            final(reader).page_size_spec() == old(reader).page_size_spec(),
            r is Ok <==> old(reader).can_read(32) && cv_header_valid(old(reader).peek(32)),
            r matches Ok(h) ==> ({
                let b = old(reader).peek(32);
                &&& h.id() == b[0]
                &&& h.section_length == le_at(b, 8, 8)
                &&& h.data_offset == le_at(b, 16, 8)
                &&& h.index_offset == le_at(b, 24, 8)
                &&& final(reader).pos() == old(reader).pos() + 32
            }),
            !old(reader).can_read(32) ==> (r matches Err(e) && e is Read),
            old(reader).can_read(32) ==> final(reader).pos() == old(reader).pos() + 32,
            old(reader).can_read(32) && !cv_header_valid(old(reader).peek(32)) ==> (r matches Err(e)
                && e is Invalid),
    {
        let buffer = match reader.read_exact(32) {
            Ok(b) => b,
            Err(_) => {
                return Err(
                    Error::Read { desc: "Failed to read compressed vector section header".to_owned() },
                );
            },
        };
        let header = Self {
            section_id: buffer[0],
            section_length: read_u64_le(buffer.as_slice(), 8),
            data_offset: read_u64_le(buffer.as_slice(), 16),
            index_offset: read_u64_le(buffer.as_slice(), 24),
        };
        if header.section_id != 1 {
            return Error::invalid("Section ID of the compressed vector section header is not 1");
        }
        if header.section_length % 4 != 0 {
            return Error::invalid("Section length is not aligned and a multiple of four");
        }
        Ok(header)
    }

    /// The 32 bytes that represent this header in a file.
    pub open spec fn bytes(&self) -> Seq<u8> {
        seq![self.id(), 0u8, 0u8, 0u8, 0u8, 0u8, 0u8, 0u8] + u64_le(self.section_length) + u64_le(
            self.data_offset,
        ) + u64_le(self.index_offset)
    }

    /// The 32 bytes that represent this header in a file.
    pub fn to_bytes(&self) -> (r: Vec<u8>)
        ensures
            r@ == self.bytes(),
    {
        let mut r: Vec<u8> = Vec::new();
        r.push(self.section_id);
        let mut i: usize = 1;
        while i < 8
            invariant
                1 <= i <= 8,
                r@.len() == i,
                r@[0] == self.section_id,
                forall|k: int| 1 <= k < i ==> r@[k] == 0u8,
            decreases 8 - i,
        {
            r.push(0u8);
            i = i + 1;
        }
        assert(r@ =~= seq![self.id(), 0u8, 0u8, 0u8, 0u8, 0u8, 0u8, 0u8]);
        r.append(&mut u64_to_le_bytes(self.section_length));
        r.append(&mut u64_to_le_bytes(self.data_offset));
        r.append(&mut u64_to_le_bytes(self.index_offset));
        r
    }

    /// Writes the 32 bytes of this header at the current position of a paged writer.
    pub fn write(&self, writer: &mut PagedWriter) -> (r: Result<()>)
        requires
            old(writer).wf(),
        ensures
            final(writer).wf(),
            r is Ok ==> final(writer).written_after(*old(writer), self.bytes()),
            old(writer).can_take(32) ==> r is Ok,
            r is Err ==> final(writer).file().len() + 2048 > usize::MAX,
            r matches Err(e) ==> e is Write,
    {
        let bytes = self.to_bytes();
        match writer.write_all(bytes.as_slice()) {
            Ok(()) => Ok(()),
            Err(_) => Err(
                Error::Write { desc: "Failed to write compressed vector section header".to_owned() },
            ),
        }
    }

    /// The default header: section ID 1, all other values zero.
    pub fn default() -> (r: Self)
        ensures
            r.id() == 1,
            r.section_length == 0,
            r.data_offset == 0,
            r.index_offset == 0,
    {
        Self { section_id: 1, section_length: 0, data_offset: 0, index_offset: 0 }
    }
}

/// A compressed vector section header turned into its 32 bytes reads back as the same header,
/// and is accepted exactly where its ID is 1 and its length a multiple of four.
pub proof fn lemma_cv_header_roundtrip(h: CompressedVectorSectionHeader)
    ensures
        h.bytes().len() == 32,
        h.bytes()[0] == h.id(),
        le_at(h.bytes(), 8, 8) == h.section_length,
        le_at(h.bytes(), 16, 8) == h.data_offset,
        le_at(h.bytes(), 24, 8) == h.index_offset,
        cv_header_valid(h.bytes()) <==> (h.id() == 1 && h.section_length % 4 == 0),
{
    let b = h.bytes();
    assert(b.subrange(8, 16) =~= u64_le(h.section_length));
    assert(b.subrange(16, 24) =~= u64_le(h.data_offset));
    assert(b.subrange(24, 32) =~= u64_le(h.index_offset));
    lemma_le_u64(h.section_length);
    lemma_le_u64(h.data_offset);
    lemma_le_u64(h.index_offset);
}


/// A compressed vector section header that a paged writer writes reads back: a paged reader
/// placed where it was written finds its 32 bytes, which `read` accepts exactly where the ID
/// is 1 and the length a multiple of four, giving back its length and offsets.
pub proof fn lemma_cv_header_write_read(h: CompressedVectorSectionHeader, w0: PagedWriter, w1: PagedWriter, r: PagedReader)
    requires
        w0.wf(),
        w1.wf(),
        w1.written_after(w0, h.bytes()),
        r.wf(),
        r.phys() == w1.flushed(),
        r.page_size_spec() == 1024,
        r.pos() == w0.logical_position(),
    ensures
        r.can_read(32),
        cv_header_valid(r.peek(32)) <==> (h.id() == 1 && h.section_length % 4 == 0),
        r.peek(32)[0] == h.id(),
        le_at(r.peek(32), 8, 8) == h.section_length,
        le_at(r.peek(32), 16, 8) == h.data_offset,
        le_at(r.peek(32), 24, 8) == h.index_offset,
{
    lemma_cv_header_roundtrip(h);
    crate::paged_writer::lemma_written_bytes_read_back(w0, w1, h.bytes(), r);
}

} // verus!
