use crate::cv_section::{cv_header_valid, CompressedVectorSectionHeader as SectionHeader};
use crate::error::{Error, Result};
use crate::le_bytes::{le_at, read_u16_le};
use crate::packet::{data_header_valid, lemma_advance};
use crate::paged_reader::PagedReader;
use crate::paged_writer::PagedWriter;
use crate::record::u64_le;
use vstd::prelude::*;

verus! {

/// Header of a compressed vector section, which holds the packets of a point cloud.
#[derive(Debug)]
pub struct CompressedVectorSectionHeader {
    /// Section ID; 1 for compressed vector sections.
    pub section_id: u8,
    /// Length of the section in bytes, including this header.
    pub section_length: u64,
    /// Physical file offset of the first data packet.
    pub data_offset: u64,
    /// Physical file offset of the first index packet.
    pub index_offset: u64,
}

/// Flags of a data packet.
#[derive(Debug)]
pub struct PacketFlags {
    _compressor_restart: bool,
}

/// Header of a packet inside a compressed vector section.
#[derive(Debug)]
pub enum PacketHeader {
    Index { packet_length: u64, entry_count: u16, index_level: u8 },
    Data { packet_flags: PacketFlags, packet_length: u64, bytestream_count: u16 },
    Ignored { packet_length: u64 },
}

/// The header bytes after the ID of an index or ignored packet give a length, stored minus
/// one, that is a multiple of four.
pub open spec fn length_aligned(b: Seq<u8>) -> bool {
    (le_at(b, 1, 2) + 1) % 4 == 0
}

impl CompressedVectorSectionHeader {
    /// Size of the header in bytes.
    pub const SIZE: u64 = 32;

    /// The section ID of the header.
    pub open spec fn id(&self) -> u8 {
        self.section_id
    }

    /// Reads a compressed vector section header at the current offset of a paged reader.
    pub fn read(reader: &mut PagedReader) -> (r: Result<CompressedVectorSectionHeader>)
        requires
            old(reader).wf(),
        ensures
            final(reader).wf(),
            final(reader).phys() == old(reader).phys(),
            final(reader).page_size_spec() == old(reader).page_size_spec(),
            r is Ok <==> old(reader).can_read(32) && cv_header_valid(old(reader).peek(32)),
            r matches Ok(h) ==> ({
                let b = old(reader).peek(32);
                &&& h.id() == b[0]
                &&& h.section_length == le_at(b, 8, 8)
                &&& h.data_offset == le_at(b, 16, 8)
                &&& h.index_offset == le_at(b, 24, 8)
                &&& final(reader).pos() == old(reader).pos() + 32
            }),
            !old(reader).can_read(32) ==> (r matches Err(e) && e is Read),
            old(reader).can_read(32) && !cv_header_valid(old(reader).peek(32)) ==> (r matches Err(e)
                && e is Invalid),
    {
        match SectionHeader::read(reader) {
            Ok(h) => Ok(
                Self {
                    section_id: h.section_id,
                    section_length: h.section_length,
                    data_offset: h.data_offset,
                    index_offset: h.index_offset,
                },
            ),
            Err(e) => Err(e),
        }
    }

    /// The 32 bytes that represent this header in a file.
    pub open spec fn bytes(&self) -> Seq<u8> {
        seq![self.id(), 0u8, 0u8, 0u8, 0u8, 0u8, 0u8, 0u8] + u64_le(self.section_length) + u64_le(
            self.data_offset,
        ) + u64_le(self.index_offset)
    }

    /// Writes the 32 bytes of this header at the current position of a paged writer.
    pub fn write(&self, writer: &mut PagedWriter) -> (r: Result<()>)
        requires
            old(writer).wf(),
        ensures
            final(writer).wf(),
            r is Ok ==> final(writer).written_after(*old(writer), self.bytes()),
            old(writer).can_take(32) ==> r is Ok,
            r is Err ==> final(writer).file().len() + 2048 > usize::MAX,
            r matches Err(e) ==> e is Write,
    {
        let header = SectionHeader {
            section_id: self.section_id,
            section_length: self.section_length,
            data_offset: self.data_offset,
            index_offset: self.index_offset,
        };
        header.write(writer)
    }

    /// The default header: section ID 1, all other values zero.
    pub fn default() -> (r: Self)
        ensures
            r.id() == 1,
            r.section_length == 0,
            r.data_offset == 0,
            r.index_offset == 0,
    {
        Self { section_id: 1, section_length: 0, data_offset: 0, index_offset: 0 }
    }
}

impl PacketFlags {
    /// Whether the compressor restarts with the packet.
    pub closed spec fn compressor_restart(&self) -> bool {
        self._compressor_restart
    }

    /// The flags that a flag byte holds: the lowest bit tells whether the compressor restarts.
    pub fn from_byte(value: u8) -> (r: Self)
        ensures
            r.compressor_restart() == (value & 1u8 != 0u8),
    {
        Self { _compressor_restart: value & 1 != 0 }
    }
}

impl PacketHeader {
    /// Reads a packet header: the ID byte and the header of the packet kind it names.
    pub fn from_reader(reader: &mut PagedReader) -> (r: Result<Self>)
        requires
            old(reader).wf(),
        ensures
            final(reader).wf(),
            final(reader).phys() == old(reader).phys(),
            final(reader).page_size_spec() == old(reader).page_size_spec(),
            !old(reader).can_read(1) ==> (r matches Err(e) && e is Read),
            old(reader).can_read(1) ==> ({
                let id = old(reader).peek(1)[0];
                &&& id > 2 ==> (r matches Err(e) && e is Invalid)
                &&& id == 0 ==> (r is Ok <==> old(reader).can_read(16) && length_aligned(
                    old(reader).peek(16).skip(1),
                ))
                &&& id == 1 ==> (r is Ok <==> old(reader).can_read(6) && data_header_valid(
                    old(reader).peek(6).skip(1),
                ))
                &&& id == 2 ==> (r is Ok <==> old(reader).can_read(4) && length_aligned(
                    old(reader).peek(4).skip(1),
                ))
                &&& r matches Ok(PacketHeader::Index { packet_length, entry_count, index_level }) ==> ({
                    let b = old(reader).peek(16).skip(1);
                    &&& id == 0
                    &&& packet_length == le_at(b, 1, 2) + 1
                    &&& entry_count == le_at(b, 3, 2)
                    &&& index_level == b[5]
                    &&& final(reader).pos() == old(reader).pos() + 16
                })
                &&& r matches Ok(PacketHeader::Data { packet_flags, packet_length, bytestream_count }) ==> ({
                    let b = old(reader).peek(6).skip(1);
                    &&& id == 1
                    &&& packet_flags.compressor_restart() == (b[0] & 1u8 != 0u8)
                    &&& packet_length == le_at(b, 1, 2) + 1
                    &&& bytestream_count == le_at(b, 3, 2)
                    &&& final(reader).pos() == old(reader).pos() + 6
                })
                &&& r matches Ok(PacketHeader::Ignored { packet_length }) ==> ({
                    let b = old(reader).peek(4).skip(1);
                    &&& id == 2
                    &&& packet_length == le_at(b, 1, 2) + 1
                    &&& final(reader).pos() == old(reader).pos() + 4
                })
                &&& r is Err && id <= 2 && !old(reader).can_read(
                    if id == 0 {
                        16
                    } else if id == 1 {
                        6
                    } else {
                        4
                    },
                ) ==> (r matches Err(e) && e is Read)
            }),
    {
        let first = match reader.read_exact(1) {
            Ok(b) => b,
            Err(_) => {
                return Err(Error::Read { desc: "Failed to read packet type".to_owned() });
            },
        };
        let ghost r0 = *old(reader);
        let ghost r1 = *reader;
        proof {
            lemma_advance(r0, r1, 1, 15);
            lemma_advance(r0, r1, 1, 5);
            lemma_advance(r0, r1, 1, 3);
            assert(r0.peek(1)[0] == first@[0]);
        }
        if first[0] == 0 {
            let buffer = match reader.read_exact(15) {
                Ok(b) => b,
                Err(_) => {
                    return Err(Error::Read { desc: "Failed to read index packet header".to_owned() });
                },
            };
            let packet_length = read_u16_le(buffer.as_slice(), 1) as u64 + 1;
            let entry_count = read_u16_le(buffer.as_slice(), 3);
            let index_level = buffer[5];
            if packet_length % 4 != 0 {
                return Error::invalid("Index packet length is not aligned and a multiple of four");
            }
            Ok(PacketHeader::Index { packet_length, entry_count, index_level })
        } else if first[0] == 1 {
            let buffer = match reader.read_exact(5) {
                Ok(b) => b,
                Err(_) => {
                    return Err(Error::Read { desc: "Failed to read data packet header".to_owned() });
                },
            };
            let packet_flags = PacketFlags::from_byte(buffer[0]);
            let packet_length = read_u16_le(buffer.as_slice(), 1) as u64 + 1;
            let bytestream_count = read_u16_le(buffer.as_slice(), 3);
            if packet_length % 4 != 0 {
                return Error::invalid("Data packet length is not aligned and a multiple of four");
            }
            if bytestream_count == 0 {
                return Error::invalid("A byte stream count of 0 is not allowed");
            }
            Ok(PacketHeader::Data { packet_flags, packet_length, bytestream_count })
        } else if first[0] == 2 {
            let buffer = match reader.read_exact(3) {
                Ok(b) => b,
                Err(_) => {
                    return Err(Error::Read { desc: "Failed to read ignore packet header".to_owned() });
                },
            };
            let packet_length = read_u16_le(buffer.as_slice(), 1) as u64 + 1;
            if packet_length % 4 != 0 {
                return Error::invalid("Ignored packet length is not aligned and a multiple of four");
            }
            Ok(PacketHeader::Ignored { packet_length })
        } else {
            Error::invalid("Found unknown packet ID when trying to read packet header")
        }
    }
}

} // verus!
