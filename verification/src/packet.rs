use crate::error::{Error, Result};
use crate::le_bytes::{le_at, read_u16_le};
use crate::paged_reader::PagedReader;
use crate::paged_writer::PagedWriter;
use vstd::prelude::*;

verus! {

/// ID of index packets.
pub const INDEX_PACKET_ID: u8 = 0;

/// ID of data packets.
pub const DATA_PACKET_ID: u8 = 1;

/// ID of ignored packets.
pub const IGNORED_PACKET_ID: u8 = 2;

/// Size of a data packet header in bytes.
pub const DATA_PACKET_HEADER_SIZE: usize = 6;

/// Header of a packet inside a compressed vector section.
pub enum PacketHeader {
    Index(IndexPacketHeader),
    Data(DataPacketHeader),
    Ignored(IgnoredPacketHeader),
}

/// Header of an index packet.
pub struct IndexPacketHeader {
    /// Length of the packet in bytes.
    pub packet_length: u64,
}

/// Header of a data packet.
pub struct DataPacketHeader {
    /// Whether the compressor restarts with this packet.
    pub comp_restart_flag: bool,
    /// Length of the packet in bytes.
    pub packet_length: u64,
    /// Number of byte streams in the packet.
    pub bytestream_count: u16,
}

/// Header of an ignored packet.
pub struct IgnoredPacketHeader {
    /// Length of the packet in bytes.
    pub packet_length: u64,
}

/// The 15 header bytes after the ID of an index packet are valid: reserved bytes are zero
/// and the length is a multiple of four.
pub open spec fn index_header_valid(b: Seq<u8>) -> bool {
    &&& b[0] == 0u8
    &&& forall|i: int| 7 <= i < 15 ==> b[i] == 0u8
    &&& (le_at(b, 1, 2) + 1) % 4 == 0
}

/// The 5 header bytes after the ID of a data packet are valid: the length is a multiple
/// of four and there is at least one byte stream.
pub open spec fn data_header_valid(b: Seq<u8>) -> bool {
    &&& (le_at(b, 1, 2) + 1) % 4 == 0
    &&& le_at(b, 3, 2) != 0
}

/// The 3 header bytes after the ID of an ignored packet are valid: the reserved byte is
/// zero and the length is a multiple of four.
pub open spec fn ignored_header_valid(b: Seq<u8>) -> bool {
    &&& b[0] == 0u8
    &&& (le_at(b, 1, 2) + 1) % 4 == 0
}

/// Common part of the contracts of header reads: the reader moves past the header wherever its
/// bytes are there, valid or not, and reading fails with a read error where they are not.
pub open spec fn header_read(old_reader: PagedReader, new_reader: PagedReader, n: int, valid: bool, ok: bool, read_error: bool) -> bool {
    &&& new_reader.wf()
    &&& new_reader.phys() == old_reader.phys()
    &&& new_reader.page_size_spec() == old_reader.page_size_spec()
    &&& ok <==> old_reader.can_read(n) && valid
    &&& old_reader.can_read(n) ==> new_reader.pos() == old_reader.pos() + n
    &&& !old_reader.can_read(n) ==> read_error
}

impl IndexPacketHeader {
    /// Reads the header of an index packet that follows its ID byte.
    pub fn read(reader: &mut PagedReader) -> (r: Result<Self>)
        requires
            old(reader).wf(),
        ensures
            r matches Err(e) ==> (e is Read || e is Invalid),
            header_read(
                *old(reader),
                *final(reader),
                15,
                index_header_valid(old(reader).peek(15)),
                r is Ok,
                r matches Err(e) && e is Read,
            ),
            old(reader).can_read(15) && !index_header_valid(old(reader).peek(15)) ==> (r matches Err(
                e,
            ) && e is Invalid),
            r matches Ok(h) ==> h.packet_length == le_at(old(reader).peek(15), 1, 2) + 1,
    {
        let buffer = match reader.read_exact(15) {
            Ok(b) => b,
            Err(_) => {
                return Err(Error::Read { desc: "Failed to read index packet header".to_owned() });
            },
        };
        if buffer[0] != 0 {
            return Error::invalid("The reserved bytes inside an index packet must be zero");
        }
        if !all_zero(&buffer, 7, 15) {
            return Error::invalid("The reserved bytes inside an index packet must be zero");
        }
        let packet_length = read_u16_le(buffer.as_slice(), 1) as u64 + 1;
        if packet_length % 4 != 0 {
            return Error::invalid("Index packet length is not aligned and a multiple of four");
        }
        Ok(Self { packet_length })
    }
}

impl DataPacketHeader {
    /// Reads the header of a data packet that follows its ID byte.
    pub fn read(reader: &mut PagedReader) -> (r: Result<Self>)
        requires
            old(reader).wf(),
        ensures
            r matches Err(e) ==> (e is Read || e is Invalid),
            header_read(
                *old(reader),
                *final(reader),
                5,
                data_header_valid(old(reader).peek(5)),
                r is Ok,
                r matches Err(e) && e is Read,
            ),
            old(reader).can_read(5) && !data_header_valid(old(reader).peek(5)) ==> (r matches Err(e)
                && e is Invalid),
            r matches Ok(h) ==> ({
                let b = old(reader).peek(5);
                &&& h.comp_restart_flag == (b[0] & 1u8 != 0u8)
                &&& h.packet_length == le_at(b, 1, 2) + 1
                &&& h.bytestream_count == le_at(b, 3, 2)
            }),
    {
        let buffer = match reader.read_exact(5) {
            Ok(b) => b,
            Err(_) => {
                return Err(Error::Read { desc: "Failed to read data packet header".to_owned() });
            },
        };
        let comp_restart_flag = buffer[0] & 1 != 0;
        let packet_length = read_u16_le(buffer.as_slice(), 1) as u64 + 1;
        let bytestream_count = read_u16_le(buffer.as_slice(), 3);
        if packet_length % 4 != 0 {
            return Error::invalid("Data packet length is not aligned and a multiple of four");
        }
        if bytestream_count == 0 {
            return Error::invalid("A byte stream count of 0 is not allowed");
        }
        Ok(Self { comp_restart_flag, packet_length, bytestream_count })
    }

    /// The six bytes that represent this header, ID included, in a file.
    pub open spec fn bytes(&self) -> Seq<u8> {
        let length = ((self.packet_length - 1) % 0x1_0000) as u16;
        seq![
            1u8,
            if self.comp_restart_flag {
                1u8
            } else {
                0u8
            },
            (length & 0xff) as u8,
            (length >> 8u16) as u8,
            (self.bytestream_count & 0xff) as u8,
            (self.bytestream_count >> 8u16) as u8,
        ]
    }

    /// Writes the six bytes of this header at the current position of a paged writer.
    pub fn write(&self, writer: &mut PagedWriter) -> (r: Result<()>)
        requires
            old(writer).wf(),
            self.packet_length >= 1,
        ensures
            final(writer).wf(),
            r is Ok ==> final(writer).written_after(*old(writer), self.bytes()),
            old(writer).can_take(6) ==> r is Ok,
            r is Err ==> final(writer).file().len() + 2048 > usize::MAX,
            r matches Err(e) ==> e is Write,
    {
        let bytes = self.to_bytes();
        match writer.write_all(bytes.as_slice()) {
            Ok(()) => Ok(()),
            Err(_) => Err(Error::Write { desc: "Failed to write data packet header".to_owned() }),
        }
    }

    /// The six bytes that represent this header, ID included, in a file.
    /// The length is stored minus one in 16 bits.
    pub fn to_bytes(&self) -> (r: Vec<u8>)
        requires
            self.packet_length >= 1,
        ensures
            r@ == self.bytes(),
    {
        let length: u16 = #[verifier::truncate] ((self.packet_length - 1) as u16);
        proof {
            let l = (self.packet_length - 1) as u64;
            assert(l as u16 == (l % 0x1_0000) as u16) by (bit_vector);
        }
        let flags: u8 = if self.comp_restart_flag {
            1
        } else {
            0
        };
        let mut r: Vec<u8> = Vec::new();
        r.push(DATA_PACKET_ID);
        r.push(flags);
        r.push((length & 0xff) as u8);
        r.push((length >> 8u16) as u8);
        r.push((self.bytestream_count & 0xff) as u8);
        r.push((self.bytestream_count >> 8u16) as u8);
        assert(r@ =~= self.bytes());
        r
    }
}

impl IgnoredPacketHeader {
    /// Reads the header of an ignored packet that follows its ID byte.
    pub fn read(reader: &mut PagedReader) -> (r: Result<Self>)
        requires
            old(reader).wf(),
        ensures
            r matches Err(e) ==> (e is Read || e is Invalid),
            header_read(
                *old(reader),
                *final(reader),
                3,
                ignored_header_valid(old(reader).peek(3)),
                r is Ok,
                r matches Err(e) && e is Read,
            ),
            old(reader).can_read(3) && !ignored_header_valid(old(reader).peek(3)) ==> (r matches Err(e)
                && e is Invalid),
            r matches Ok(h) ==> h.packet_length == le_at(old(reader).peek(3), 1, 2) + 1,
    {
        let buffer = match reader.read_exact(3) {
            Ok(b) => b,
            Err(_) => {
                return Err(Error::Read { desc: "Failed to read ignore packet header".to_owned() });
            },
        };
        if buffer[0] != 0 {
            return Error::invalid("The first byte inside ignored packets is reserved and must be zero");
        }
        let packet_length = read_u16_le(buffer.as_slice(), 1) as u64 + 1;
        if packet_length % 4 != 0 {
            return Error::invalid("Ignored packet length is not aligned and a multiple of four");
        }
        Ok(Self { packet_length })
    }
}

impl PacketHeader {
    /// Reads a packet header: the ID byte and the header of the packet kind it names.
    pub fn read(reader: &mut PagedReader) -> (r: Result<Self>)
        requires
            old(reader).wf(),
        ensures
            r matches Err(e) ==> (e is Read || e is Invalid),
            final(reader).wf(),
            final(reader).phys() == old(reader).phys(),
            final(reader).page_size_spec() == old(reader).page_size_spec(),
            !old(reader).can_read(1) ==> (r matches Err(e) && e is Read),
            old(reader).can_read(1) ==> ({
                let id = old(reader).peek(1)[0];
                &&& id > IGNORED_PACKET_ID ==> (r matches Err(e) && e is Invalid && final(reader).pos() == old(reader).pos() + 1)
                &&& id == INDEX_PACKET_ID ==> (old(reader).can_read(16) ==> final(reader).pos() == old(reader).pos() + 16)
                    && (!old(reader).can_read(16) ==> (r matches Err(e) && e is Read))
                &&& id == DATA_PACKET_ID ==> (old(reader).can_read(6) ==> final(reader).pos() == old(reader).pos() + 6)
                    && (!old(reader).can_read(6) ==> (r matches Err(e) && e is Read))
                &&& id == IGNORED_PACKET_ID ==> (old(reader).can_read(4) ==> final(reader).pos() == old(reader).pos() + 4)
                    && (!old(reader).can_read(4) ==> (r matches Err(e) && e is Read))
                &&& id <= IGNORED_PACKET_ID && !(r is Ok) && (id == INDEX_PACKET_ID ==> old(reader).can_read(16)) && (id
                    == DATA_PACKET_ID ==> old(reader).can_read(6)) && (id == IGNORED_PACKET_ID ==> old(reader).can_read(4))
                    ==> (r matches Err(e) && e is Invalid)
                &&& id == INDEX_PACKET_ID ==> (r is Ok <==> old(reader).can_read(16) && index_header_valid(
                    old(reader).peek(16).skip(1),
                ))
                &&& id == DATA_PACKET_ID ==> (r is Ok <==> old(reader).can_read(6) && data_header_valid(
                    old(reader).peek(6).skip(1),
                ))
                &&& id == IGNORED_PACKET_ID ==> (r is Ok <==> old(reader).can_read(4)
                    && ignored_header_valid(old(reader).peek(4).skip(1)))
                &&& r matches Ok(PacketHeader::Index(h)) ==> id == INDEX_PACKET_ID && h.packet_length
                    == le_at(old(reader).peek(16).skip(1), 1, 2) + 1 && final(reader).pos() == old(reader).pos() + 16
                &&& r matches Ok(PacketHeader::Data(h)) ==> id == DATA_PACKET_ID && h.comp_restart_flag == (
                old(reader).peek(6).skip(1)[0] & 1u8 != 0u8) && h.packet_length == le_at(
                    old(reader).peek(6).skip(1),
                    1,
                    2,
                ) + 1 && h.bytestream_count == le_at(old(reader).peek(6).skip(1), 3, 2) && final(reader).pos() == old(reader).pos() + 6
                &&& r matches Ok(PacketHeader::Ignored(h)) ==> id == IGNORED_PACKET_ID && h.packet_length
                    == le_at(old(reader).peek(4).skip(1), 1, 2) + 1 && final(reader).pos() == old(reader).pos() + 4
            }),
    {
        let buffer = match reader.read_exact(1) {
            Ok(b) => b,
            Err(_) => {
                return Err(Error::Read { desc: "Failed to read packet type ID".to_owned() });
            },
        };
        let ghost first = *old(reader);
        let ghost rest = *reader;
        proof {
            lemma_advance(first, rest, 1, 15);
            lemma_advance(first, rest, 1, 5);
            lemma_advance(first, rest, 1, 3);
            assert(first.peek(1)[0] == buffer@[0]);
        }
        if buffer[0] == INDEX_PACKET_ID {
            match IndexPacketHeader::read(reader) {
                Ok(h) => Ok(PacketHeader::Index(h)),
                Err(e) => Err(e),
            }
        } else if buffer[0] == DATA_PACKET_ID {
            match DataPacketHeader::read(reader) {
                Ok(h) => Ok(PacketHeader::Data(h)),
                Err(e) => Err(e),
            }
        } else if buffer[0] == IGNORED_PACKET_ID {
            match IgnoredPacketHeader::read(reader) {
                Ok(h) => Ok(PacketHeader::Ignored(h)),
                Err(e) => Err(e),
            }
        } else {
            Error::invalid("Found unknown packet ID when trying to read packet header")
        }
    }
}

/// Whether the bytes `from .. to` of `b` are all zero.
fn all_zero(b: &Vec<u8>, from: usize, to: usize) -> (r: bool)
    requires
        from <= to <= b@.len(),
    ensures
        r == forall|k: int| from <= k < to ==> b@[k] == 0u8,
{
    let mut i = from;
    while i < to
        invariant
            from <= i <= to,
            to <= b@.len(),
            forall|k: int| from <= k < i ==> b@[k] == 0u8,
        decreases to - i,
    {
        if b[i] != 0 {
            return false;
        }
        i = i + 1;
    }
    true
}

/// After reading `a` bytes, reading `b` more is reading `a + b` bytes from the start.
pub(crate) proof fn lemma_advance(first: PagedReader, second: PagedReader, a: int, b: int)
    requires
        first.wf(),
        second.phys() == first.phys(),
        second.page_size_spec() == first.page_size_spec(),
        second.pos() == first.pos() + a,
        a >= 1,
        b >= 1,
        first.can_read(a),
    ensures
        second.can_read(b) == first.can_read(a + b),
        second.peek(b) =~= first.peek(a + b).skip(a),
{
    assert(second.content() == first.content());
    if second.can_read(b) {
        assert forall|k: int| first.pos() <= k < first.pos() + a + b implies #[trigger] first.byte_valid(k) by {
            if k >= second.pos() {
                assert(second.byte_valid(k));
            }
        }
    }
    if first.can_read(a + b) {
        assert forall|k: int| second.pos() <= k < second.pos() + b implies #[trigger] second.byte_valid(k) by {
            assert(first.byte_valid(k));
        }
    }
}

/// The two bytes `lo, hi` stand for `lo + 256 * hi`.
pub(crate) proof fn lemma_le_two(lo: u8, hi: u8)
    ensures
        crate::bit_seq::le_nat(seq![lo, hi]) == lo + 256 * hi,
{
    reveal_with_fuel(crate::bit_seq::le_nat, 3);
    assert(seq![lo, hi].drop_first() =~= seq![hi]);
    assert(seq![hi].drop_first() =~= Seq::<u8>::empty());
}

/// A data packet header turned into its six bytes reads back as the same header, and is
/// accepted exactly where its length is a multiple of four and it has byte streams.
pub proof fn lemma_data_header_roundtrip(h: DataPacketHeader)
    requires
        1 <= h.packet_length <= 65536,
    ensures
        h.bytes().len() == 6,
        h.bytes()[0] == DATA_PACKET_ID,
        le_at(h.bytes().skip(1), 1, 2) + 1 == h.packet_length,
        le_at(h.bytes().skip(1), 3, 2) == h.bytestream_count,
        (h.bytes().skip(1)[0] & 1u8 != 0u8) == h.comp_restart_flag,
        data_header_valid(h.bytes().skip(1)) <==> (h.packet_length % 4 == 0 && h.bytestream_count != 0),
{
    let b = h.bytes().skip(1);
    let length = ((h.packet_length - 1) % 0x1_0000) as u16;
    let count = h.bytestream_count;
    assert(b.subrange(1, 3) =~= seq![(length & 0xff) as u8, (length >> 8u16) as u8]);
    assert(b.subrange(3, 5) =~= seq![(count & 0xff) as u8, (count >> 8u16) as u8]);
    lemma_le_two((length & 0xff) as u8, (length >> 8u16) as u8);
    lemma_le_two((count & 0xff) as u8, (count >> 8u16) as u8);
    assert(((length & 0xff) as u8) + 256 * ((length >> 8u16) as u8) == length) by (bit_vector);
    assert(((count & 0xff) as u8) + 256 * ((count >> 8u16) as u8) == count) by (bit_vector);
    assert(1u8 & 1u8 != 0u8) by (bit_vector);
    assert(0u8 & 1u8 == 0u8) by (bit_vector);
}


/// A data packet header that a paged writer writes reads back: a paged reader placed where it
/// was written finds its ID byte and the five bytes after it, which are accepted exactly
/// where the length is a multiple of four and the packet has byte streams, and which give back
/// the restart flag, the length and the number of byte streams.
pub proof fn lemma_data_header_write_read(h: DataPacketHeader, w0: PagedWriter, w1: PagedWriter, r: PagedReader)
    requires
        1 <= h.packet_length <= 65536,
        w0.wf(),
        w1.wf(),
        w1.written_after(w0, h.bytes()),
        r.wf(),
        r.phys() == w1.flushed(),
        r.page_size_spec() == 1024,
        r.pos() == w0.logical_position(),
    ensures
        r.can_read(6),
        r.peek(1)[0] == DATA_PACKET_ID,
        data_header_valid(r.peek(6).skip(1)) <==> (h.packet_length % 4 == 0 && h.bytestream_count != 0),
        le_at(r.peek(6).skip(1), 1, 2) + 1 == h.packet_length,
        le_at(r.peek(6).skip(1), 3, 2) == h.bytestream_count,
        (r.peek(6).skip(1)[0] & 1u8 != 0u8) == h.comp_restart_flag,
{
    lemma_data_header_roundtrip(h);
    crate::paged_writer::lemma_written_bytes_read_back(w0, w1, h.bytes(), r);
    assert(r.peek(1)[0] == r.peek(6)[0]);
}

} // verus!
