use crate::bounds::IndexBounds;
use crate::bs_write::ByteStreamWriteBuffer;
use crate::cv_section::CompressedVectorSectionHeader;
use crate::error::{Error, Result};
use crate::paged_writer::{lemma_written_after_len, padded, written_at, PagedWriter};
use crate::pc_writer::{
    update_max, update_min,
    aligned4, chunk, chunk_taken, chunk_views, data_packet, get_max_packet_points, has_kind,
    max_packet_points, point_bits, prototype_valid, raw_packet_len, take_chunks, total_len,
    validate_prototype, write_data_packet,
};
use crate::record::{Record, RecordDataType, RecordValue};
use std::collections::VecDeque;
use vstd::prelude::*;

verus! {

/// The bits that the values at index `i` of these points occupy in byte stream `i`.
pub open spec fn column_bits(t: RecordDataType, pts: Seq<Vec<RecordValue>>, i: int) -> Seq<bool>
    decreases pts.len(),
{
    if pts.len() == 0 {
        Seq::empty()
    } else {
        column_bits(t, pts.drop_last(), i) + t.value_bits(pts.last()@[i])
    }
}

/// Every value at index `i` of these points lies within the limits of its data type.
pub open spec fn column_clean(t: RecordDataType, pts: Seq<Vec<RecordValue>>, i: int) -> bool {
    forall|j: int| 0 <= j < pts.len() ==> #[trigger] t.clean_value(pts[j]@[i])
}

/// The point has a value for each record of the prototype, of the record's kind.
pub open spec fn point_fits(proto: Seq<Record>, pt: Seq<RecordValue>) -> bool {
    &&& pt.len() == proto.len()
    &&& forall|i: int| 0 <= i < proto.len() ==> #[trigger] proto[i].data_type.accepts(pt[i])
}

/// `mid` holds the byte streams `old` with the values of the points `pts` appended, value `i`
/// of each point to stream `i`.
pub open spec fn serialized(
    proto: Seq<Record>,
    old: Seq<ByteStreamWriteBuffer>,
    mid: Seq<ByteStreamWriteBuffer>,
    pts: Seq<Vec<RecordValue>>,
) -> bool {
    &&& mid.len() == old.len()
    &&& forall|i: int|
        0 <= i < old.len() ==> {
            &&& (#[trigger] mid[i]).wf()
            &&& mid[i].bit_len() == old[i].bit_len() + pts.len() * proto[i].data_type.bit_size_spec()
            &&& mid[i].data().len() <= old[i].data().len() + 8 * pts.len()
            &&& (old[i].clean() && column_clean(proto[i].data_type, pts, i)) ==> (mid[i].clean()
                && mid[i].written() == old[i].written() + column_bits(proto[i].data_type, pts, i))
        }
}

/// Writes the data packets of a compressed vector section from the raw values of points:
/// it buffers points, serializes their values into one byte stream per record, and writes a
/// data packet whenever a packet's worth of points is buffered.
pub struct CompressedVectorWriter {
    prototype: Vec<Record>,
    section_offset: u64,
    section_header: CompressedVectorSectionHeader,
    point_count: u64,
    buffer: VecDeque<Vec<RecordValue>>,
    max_points_per_packet: usize,
    byte_streams: Vec<ByteStreamWriteBuffer>,
    index_bounds: Option<IndexBounds>,
    failed: bool,
}

/// Appends the values of one point to the byte streams, value `i` to stream `i`.
fn serialize_point(streams: &mut Vec<ByteStreamWriteBuffer>, proto: &Vec<Record>, pt: &Vec<RecordValue>)
    requires
        old(streams)@.len() == proto@.len(),
        point_fits(proto@, pt@),
        forall|i: int|
            0 <= i < old(streams)@.len() ==> (#[trigger] old(streams)@[i]).wf() && old(streams)@[i].data().len()
                <= 0x1000_0000,
    ensures
        final(streams)@.len() == old(streams)@.len(),
        forall|i: int|
            0 <= i < old(streams)@.len() ==> {
                let t = proto@[i].data_type;
                &&& (#[trigger] final(streams)@[i]).wf()
                &&& final(streams)@[i].bit_len() == old(streams)@[i].bit_len() + t.bit_size_spec()
                &&& final(streams)@[i].data().len() <= old(streams)@[i].data().len() + 8
                &&& (old(streams)@[i].clean() && t.clean_value(pt@[i])) ==> (final(streams)@[i].clean()
                    && final(streams)@[i].written() == old(streams)@[i].written() + t.value_bits(pt@[i]))
            },
{
    let n = streams.len();
    let mut done: Vec<ByteStreamWriteBuffer> = Vec::new();
    let mut i: usize = 0;
    while i < n
        invariant
            n == old(streams)@.len(),
            n == proto@.len(),
            point_fits(proto@, pt@),
            i <= n,
            streams@ == old(streams)@.skip(i as int),
            done@.len() == i,
            forall|j: int|
                0 <= j < n ==> (#[trigger] old(streams)@[j]).wf() && old(streams)@[j].data().len() <= 0x1000_0000,
            forall|j: int|
                0 <= j < i ==> {
                    let t = proto@[j].data_type;
                    &&& (#[trigger] done@[j]).wf()
                    &&& done@[j].bit_len() == old(streams)@[j].bit_len() + t.bit_size_spec()
                    &&& done@[j].data().len() <= old(streams)@[j].data().len() + 8
                    &&& (old(streams)@[j].clean() && t.clean_value(pt@[j])) ==> (done@[j].clean()
                        && done@[j].written() == old(streams)@[j].written() + t.value_bits(pt@[j]))
                },
        decreases n - i,
    {
        let mut bs = streams.remove(0);
        assert(bs == old(streams)@[i as int]);
        assert(proto@[i as int].data_type.accepts(pt@[i as int]));
        let r = proto[i].data_type.write(&pt[i], &mut bs);
        done.push(bs);
        i = i + 1;
        assert(streams@ =~= old(streams)@.skip(i as int));
    }
    *streams = done;
}

impl CompressedVectorWriter {
    /// The prototype of the point cloud.
    pub closed spec fn proto(&self) -> Seq<Record> {
        self.prototype@
    }

    /// The points that are buffered and not yet serialized, oldest first.
    pub closed spec fn buffered(&self) -> Seq<Vec<RecordValue>> {
        self.buffer@
    }

    /// The byte streams, one per record of the prototype.
    pub closed spec fn streams(&self) -> Seq<ByteStreamWriteBuffer> {
        self.byte_streams@
    }

    /// Physical offset of the compressed vector section.
    pub closed spec fn offset(&self) -> u64 {
        self.section_offset
    }

    /// The section header that is written when the section is complete.
    pub closed spec fn header(&self) -> CompressedVectorSectionHeader {
        self.section_header
    }

    /// Number of points added so far.
    pub closed spec fn points(&self) -> u64 {
        self.point_count
    }

    /// Number of points per data packet.
    pub closed spec fn packet_points(&self) -> int {
        self.max_points_per_packet as int
    }

    /// The bounds of the row, column and return indices of the added points, where the
    /// prototype has such records.
    pub closed spec fn bounds(&self) -> Option<IndexBounds> {
        self.index_bounds
    }

    /// A write failed before; the writer takes no more points.
    pub closed spec fn has_failed(&self) -> bool {
        self.failed
    }

    /// Well-formedness: one byte stream per record, at most an incomplete byte in each
    /// between packets, fewer buffered points than a packet takes, all of them fitting the
    /// prototype.
    pub open spec fn wf(&self) -> bool {
        &&& self.ready()
        &&& !self.has_failed() ==> self.buffered().len() < self.packet_points()
    }

    /// Well-formedness, where the buffer may hold a full packet's worth of points.
    pub open spec fn ready(&self) -> bool {
        &&& self.streams().len() == self.proto().len()
        &&& self.packet_points() == max_packet_points(self.proto())
        &&& 1 <= self.packet_points()
        &&& point_bits(self.proto()) > 0
        &&& 3 * self.proto().len() + 506 <= 65535
        &&& self.offset() % 1024 < 1020
        &&& (self.bounds() is Some <==> (has_kind(self.proto(), 14) || has_kind(self.proto(), 15)
            || has_kind(self.proto(), 17)))
        &&& !self.has_failed() ==> {
            &&& self.buffered().len() <= self.packet_points()
            &&& forall|i: int|
                0 <= i < self.streams().len() ==> (#[trigger] self.streams()[i]).wf()
                    && self.streams()[i].bit_len() < 8 && self.streams()[i].data().len() <= 1
            &&& forall|j: int| 0 <= j < self.buffered().len() ==> point_fits(self.proto(), #[trigger] self.buffered()[j]@)
        }
    }

    /// Appends the values of the first `k` buffered points to the byte streams and removes
    /// these points from the buffer.
    fn serialize_points(&mut self, k: usize)
        requires
            k <= old(self).buffered().len(),
            k <= 0x100_0000,
            old(self).streams().len() == old(self).proto().len(),
            forall|i: int|
                0 <= i < old(self).streams().len() ==> (#[trigger] old(self).streams()[i]).wf()
                    && old(self).streams()[i].data().len() <= 1,
            forall|j: int| 0 <= j < old(self).buffered().len() ==> point_fits(old(self).proto(), #[trigger] old(self).buffered()[j]@),
        ensures
            serialized(old(self).proto(), old(self).streams(), final(self).streams(), old(self).buffered().take(k as int)),
            final(self).buffered() == old(self).buffered().skip(k as int),
            final(self).proto() == old(self).proto(),
            final(self).offset() == old(self).offset(),
            final(self).header() == old(self).header(),
            final(self).points() == old(self).points(),
            final(self).packet_points() == old(self).packet_points(),
            final(self).bounds() == old(self).bounds(),
            final(self).has_failed() == old(self).has_failed(),
    {
        let ghost proto = self.prototype@;
        let ghost s0 = self.byte_streams@;
        let ghost b0 = self.buffer@;
        proof {
            assert(b0.take(0) =~= Seq::<Vec<RecordValue>>::empty());
            assert forall|i: int| 0 <= i < s0.len() implies #[trigger] s0[i].written() + column_bits(proto[i].data_type, b0.take(0), i) == s0[i].written() by {
                assert(s0[i].written() + Seq::<bool>::empty() =~= s0[i].written());
            }
        }
        let mut j: usize = 0;
        while j < k
            invariant
                j <= k,
                k <= b0.len(),
                k <= 0x100_0000,
                proto == self.prototype@,
                proto == old(self).proto(),
                s0 == old(self).streams(),
                b0 == old(self).buffered(),
                s0.len() == proto.len(),
                self.buffer@ == b0.skip(j as int),
                serialized(proto, s0, self.byte_streams@, b0.take(j as int)),
                forall|i: int| 0 <= i < s0.len() ==> (#[trigger] s0[i]).wf() && s0[i].data().len() <= 1,
                forall|m: int| 0 <= m < b0.len() ==> point_fits(proto, #[trigger] b0[m]@),
                self.section_offset == old(self).offset(),
                self.section_header == old(self).header(),
                self.point_count == old(self).points(),
                self.max_points_per_packet == old(self).packet_points(),
                self.index_bounds == old(self).bounds(),
                self.failed == old(self).has_failed(),
            decreases k - j,
        {
            let pt = match self.buffer.pop_front() {
                Some(p) => p,
                None => {
                    proof {
                        assert(false);
                    }
                    Vec::new()
                },
            };
            assert(pt == b0[j as int]);
            let ghost before = self.byte_streams@;
            proof {
                assert forall|i: int| 0 <= i < before.len() implies (#[trigger] before[i]).wf() && before[i].data().len() <= 0x1000_0000 by {
                    assert(before[i].data().len() <= s0[i].data().len() + 8 * j);
                }
            }
            serialize_point(&mut self.byte_streams, &self.prototype, &pt);
            proof {
                let pts = b0.take(j + 1);
                assert(pts.drop_last() =~= b0.take(j as int));
                assert(pts.last() == pt);
                assert forall|i: int| 0 <= i < s0.len() implies {
                    &&& (#[trigger] self.byte_streams@[i]).wf()
                    &&& self.byte_streams@[i].bit_len() == s0[i].bit_len() + pts.len() * proto[i].data_type.bit_size_spec()
                    &&& self.byte_streams@[i].data().len() <= s0[i].data().len() + 8 * pts.len()
                    &&& (s0[i].clean() && column_clean(proto[i].data_type, pts, i)) ==> (self.byte_streams@[i].clean()
                        && self.byte_streams@[i].written() == s0[i].written() + column_bits(proto[i].data_type, pts, i))
                } by {
                    let t = proto[i].data_type;
                    let b = t.bit_size_spec() as int;
                    assert((j + 1) * b == j * b + b) by (nonlinear_arith);
                    if s0[i].clean() && column_clean(t, pts, i) {
                        assert(column_clean(t, b0.take(j as int), i)) by {
                            assert forall|m: int| 0 <= m < b0.take(j as int).len() implies #[trigger] t.clean_value(b0.take(j as int)[m]@[i]) by {
                                assert(t.clean_value(pts[m]@[i]));
                            }
                        }
                        assert(t.clean_value(pts[j as int]@[i]));
                        assert(s0[i].written() + column_bits(t, pts, i) =~= s0[i].written() + column_bits(t, b0.take(j as int), i) + t.value_bits(pt@[i]));
                    }
                }
                assert(self.buffer@ =~= b0.skip(j + 1));
            }
            j = j + 1;
        }
    }

    /// The data packet that writing the chunks of the byte streams `mid` produced: nothing
    /// where all chunks are empty, else the packet, whose length the section length grows by.
    pub open spec fn packet_written(
        &self,
        before: CompressedVectorWriter,
        w0: PagedWriter,
        w1: PagedWriter,
        mid: Seq<ByteStreamWriteBuffer>,
        last_flush: bool,
    ) -> bool {
        let chunks = Seq::new(mid.len(), |i: int| chunk(mid[i], last_flush));
        &&& self.streams().len() == mid.len()
        &&& forall|i: int| 0 <= i < mid.len() ==> chunk_taken(mid[i], #[trigger] self.streams()[i], last_flush)
        &&& total_len(chunks) == 0 ==> w1 == w0 && self.header() == before.header()
        &&& total_len(chunks) > 0 ==> {
            &&& w1.written_after(w0, data_packet(chunks, w0.logical_position()))
            &&& self.header().section_length == before.header().section_length + aligned4(raw_packet_len(chunks))
            &&& self.header().data_offset == before.header().data_offset
            &&& self.header().index_offset == before.header().index_offset
            &&& self.header().section_id == before.header().section_id
        }
    }

    /// Serializes a packet's worth of buffered points, fewer where fewer are buffered, into
    /// the byte streams and writes their complete bytes, all bytes for the last packet, as a
    /// data packet. Writes nothing where the streams hold no such bytes.
    fn write_buffer_to_disk(&mut self, writer: &mut PagedWriter, last_flush: bool) -> (r: Result<()>)
        requires
            old(self).ready(),
            !old(self).has_failed(),
            old(writer).wf(),
            last_flush ==> old(self).buffered().len() == 0,
        ensures
            final(writer).wf(),
            final(self).ready(),
            final(self).proto() == old(self).proto(),
            final(self).offset() == old(self).offset(),
            final(self).points() == old(self).points(),
            final(self).bounds() == old(self).bounds(),
            ({
                let k = if old(self).packet_points() < old(self).buffered().len() {
                    old(self).packet_points()
                } else {
                    old(self).buffered().len() as int
                };
                &&& r is Ok ==> !final(self).has_failed() && final(self).buffered() == old(self).buffered().skip(k)
                &&& r is Ok ==> exists|mid: Seq<ByteStreamWriteBuffer>|
                    serialized(old(self).proto(), old(self).streams(), mid, old(self).buffered().take(k))
                        && #[trigger] final(self).packet_written(*old(self), *old(writer), *final(writer), mid, last_flush)
            }),
            r is Ok ==> final(self).header().section_length <= old(self).header().section_length + 65535,
            r is Err ==> final(self).has_failed(),
            r matches Err(e) ==> ((e is Internal && old(self).header().section_length + 65535 > u64::MAX) || (e is Write
                && final(writer).file().len() + 2048 > usize::MAX)),
    {
        let len = self.buffer.len();
        let k = if self.max_points_per_packet < len {
            self.max_points_per_packet
        } else {
            len
        };
        proof {
            assert forall|i: int| 0 <= i < self.byte_streams@.len() implies (#[trigger] self.byte_streams@[i]).wf()
                && self.byte_streams@[i].data().len() <= 1 by {}
            assert(self.max_points_per_packet <= 0x100_0000) by {
                assert(max_packet_points(self.prototype@) <= 65535 * 8) by (nonlinear_arith)
                    requires
                        point_bits(self.prototype@) > 0,
                        3 * self.prototype@.len() + 506 <= 65535,
                        max_packet_points(self.prototype@) == ((65535 - 6 - 2 * self.prototype@.len()
                            - self.prototype@.len() - 500) * 8) / point_bits(self.prototype@),
                ;
            }
        }
        let ghost w0 = *writer;
        let ghost s0 = *self;
        self.serialize_points(k);
        let ghost mid = self.byte_streams@;
        let chunks = take_chunks(&mut self.byte_streams, last_flush);
        let ghost views = chunk_views(chunks@);
        assert(views =~= Seq::new(mid.len(), |i: int| chunk(mid[i], last_flush)));
        if !any_nonempty(&chunks) {
            proof {
                assert forall|i: int| 0 <= i < self.byte_streams@.len() implies (#[trigger] self.byte_streams@[i]).wf()
                    && self.byte_streams@[i].bit_len() < 8 && self.byte_streams@[i].data().len() <= 1 by {
                    lemma_chunk_rest(mid[i], self.byte_streams@[i], last_flush, views[i]);
                }
                assert(self.packet_written(s0, w0, *writer, mid, last_flush));
            }
            return Ok(());
        }
        proof {
            lemma_packet_fits(s0.proto(), s0.streams(), mid, k as int, last_flush);
        }
        let packet_length = match write_data_packet(writer, &chunks) {
            Ok(l) => l,
            Err(e) => {
                self.failed = true;
                return Err(e);
            },
        };
        let length = match self.section_header.section_length.checked_add(packet_length) {
            Some(l) => l,
            None => {
                self.failed = true;
                return Error::internal("Compressed vector section too long");
            },
        };
        self.section_header.section_length = length;
        proof {
            assert forall|i: int| 0 <= i < self.byte_streams@.len() implies (#[trigger] self.byte_streams@[i]).wf()
                && self.byte_streams@[i].bit_len() < 8 && self.byte_streams@[i].data().len() <= 1 by {
                lemma_chunk_rest(mid[i], self.byte_streams@[i], last_flush, views[i]);
            }
            let cs = Seq::new(mid.len(), |i: int| chunk(mid[i], last_flush));
            assert(self.streams().len() == mid.len());
            assert(forall|i: int| 0 <= i < mid.len() ==> chunk_taken(mid[i], #[trigger] self.streams()[i], last_flush));
            assert(total_len(cs) > 0);
            assert(writer.written_after(w0, data_packet(cs, w0.logical_position())));
            assert(self.header().section_length == s0.header().section_length + aligned4(raw_packet_len(cs)));
            assert(self.packet_written(s0, w0, *writer, mid, last_flush));
        }
        Ok(())
    }
}

impl CompressedVectorWriter {
    /// Starts a compressed vector section at the current position of the writer: checks the
    /// prototype and writes a preliminary section header, which `finalize` completes.
    pub fn new(writer: &mut PagedWriter, prototype: Vec<Record>) -> (r: Result<Self>)
        requires
            old(writer).wf(),
            prototype_valid(prototype@) ==> point_bits(prototype@) > 0 && 3 * prototype@.len() + 506
                <= 65535 && max_packet_points(prototype@) >= 1,
        ensures
            final(writer).wf(),
            !prototype_valid(prototype@) ==> (r matches Err(e) && e is Invalid && *final(writer) == *old(
                writer,
            )),
            r is Err && prototype_valid(prototype@) ==> (r matches Err(e) && e is Write
                && final(writer).file().len() + 2048 > usize::MAX),
            r matches Ok(w) ==> {
                &&& w.wf()
                &&& !w.has_failed()
                &&& w.proto() == prototype@
                &&& w.buffered().len() == 0
                &&& w.points() == 0
                &&& forall|i: int| 0 <= i < w.streams().len() ==> (#[trigger] w.streams()[i]).data().len() == 0
                    && w.streams()[i].last_bit() == 0 && w.streams()[i].clean()
                &&& w.offset() == old(writer).page_start() + old(writer).page_offset()
                &&& w.header().section_id == 1
                &&& w.header().section_length == 32
                &&& w.header().data_offset == final(writer).page_start() + final(writer).page_offset()
                &&& w.header().index_offset == 0
                &&& final(writer).written_after(
                    *old(writer),
                    (CompressedVectorSectionHeader {
                        section_id: 1,
                        section_length: 32,
                        data_offset: 0,
                        index_offset: 0,
                    }).bytes(),
                )
                &&& w.bounds() == if has_kind(prototype@, 14) || has_kind(prototype@, 15) || has_kind(
                    prototype@,
                    17,
                ) {
                    Some(
                        IndexBounds {
                            row_min: None,
                            row_max: None,
                            column_min: None,
                            column_max: None,
                            return_min: None,
                            return_max: None,
                        },
                    )
                } else {
                    None
                }
            },
    {
        match validate_prototype(prototype.as_slice()) {
            Ok(()) => {},
            Err(e) => {
                return Err(e);
            },
        }
        let max_points_per_packet = get_max_packet_points(prototype.as_slice());
        let n = prototype.len();
        let mut byte_streams: Vec<ByteStreamWriteBuffer> = Vec::new();
        let mut i: usize = 0;
        while i < n
            invariant
                i <= n,
                byte_streams@.len() == i,
                forall|j: int| 0 <= j < i ==> (#[trigger] byte_streams@[j]).data().len() == 0
                    && byte_streams@[j].last_bit() == 0 && byte_streams@[j].clean() && byte_streams@[j].wf(),
            decreases n - i,
        {
            byte_streams.push(ByteStreamWriteBuffer::new());
            i = i + 1;
        }
        let section_offset = match writer.physical_position() {
            Ok(p) => p,
            Err(e) => {
                return Err(e);
            },
        };
        let mut section_header = CompressedVectorSectionHeader::default();
        section_header.section_length = 32;
        match section_header.write(writer) {
            Ok(()) => {},
            Err(e) => {
                return Err(e);
            },
        }
        let data_offset = match writer.physical_position() {
            Ok(p) => p,
            Err(e) => {
                return Err(e);
            },
        };
        section_header.data_offset = data_offset;
        let has_index = crate::pc_writer::contains(prototype.as_slice(), 14)
            || crate::pc_writer::contains(prototype.as_slice(), 15)
            || crate::pc_writer::contains(prototype.as_slice(), 17);
        let index_bounds = if has_index {
            Some(
                IndexBounds {
                    row_min: None,
                    row_max: None,
                    column_min: None,
                    column_max: None,
                    return_min: None,
                    return_max: None,
                },
            )
        } else {
            None
        };
        Ok(
            Self {
                prototype,
                section_offset,
                section_header,
                point_count: 0,
                buffer: VecDeque::new(),
                max_points_per_packet,
                byte_streams,
                index_bounds,
                failed: false,
            },
        )
    }
}

/// The minimum of an optional minimum and a value.
pub open spec fn min_with(m: Option<i64>, v: i64) -> i64 {
    match m {
        Some(c) => if c > v {
            v
        } else {
            c
        },
        None => v,
    }
}

/// The maximum of an optional maximum and a value.
pub open spec fn max_with(m: Option<i64>, v: i64) -> i64 {
    match m {
        Some(c) => if c < v {
            v
        } else {
            c
        },
        None => v,
    }
}

/// Kinds of the records whose values the index bounds track: row, column and return index.
pub open spec fn is_index_kind(k: int) -> bool {
    k == 14 || k == 15 || k == 17
}

/// The values of the point at the index records are integers.
pub open spec fn index_values_ok(proto: Seq<Record>, vals: Seq<RecordValue>) -> bool {
    forall|i: int|
        0 <= i < proto.len() && is_index_kind(#[trigger] proto[i].name.kind()) ==> vals[i] is Integer
}

/// The index bounds once the values of the first `n` records of a point are taken in.
pub open spec fn bounds_with(b: IndexBounds, proto: Seq<Record>, vals: Seq<RecordValue>, n: int) -> IndexBounds
    decreases n,
{
    if n <= 0 {
        b
    } else {
        let c = bounds_with(b, proto, vals, n - 1);
        let k = proto[n - 1].name.kind();
        match vals[n - 1] {
            RecordValue::Integer(v) => if k == 14 {
                IndexBounds {
                    row_min: Some(min_with(c.row_min, v)),
                    row_max: Some(max_with(c.row_max, v)),
                    column_min: c.column_min,
                    column_max: c.column_max,
                    return_min: c.return_min,
                    return_max: c.return_max,
                }
            } else if k == 15 {
                IndexBounds {
                    row_min: c.row_min,
                    row_max: c.row_max,
                    column_min: Some(min_with(c.column_min, v)),
                    column_max: Some(max_with(c.column_max, v)),
                    return_min: c.return_min,
                    return_max: c.return_max,
                }
            } else if k == 17 {
                IndexBounds {
                    row_min: c.row_min,
                    row_max: c.row_max,
                    column_min: c.column_min,
                    column_max: c.column_max,
                    return_min: Some(min_with(c.return_min, v)),
                    return_max: Some(max_with(c.return_max, v)),
                }
            } else {
                c
            },
            _ => c,
        }
    }
}

/// Whether the values of the point at the index records are integers.
fn check_index_values(proto: &Vec<Record>, vals: &Vec<RecordValue>) -> (r: bool)
    requires
        vals@.len() == proto@.len(),
    ensures
        r == index_values_ok(proto@, vals@),
{
    let mut i: usize = 0;
    while i < proto.len()
        invariant
            i <= proto@.len(),
            vals@.len() == proto@.len(),
            forall|j: int|
                0 <= j < i && is_index_kind(#[trigger] proto@[j].name.kind()) ==> vals@[j] is Integer,
        decreases proto@.len() - i,
    {
        let k = proto[i].name.kind_index();
        if k == 14 || k == 15 || k == 17 {
            match vals[i] {
                RecordValue::Integer(_) => {},
                _ => {
                    return false;
                },
            }
        }
        i = i + 1;
    }
    true
}

/// Takes the values of a point at the index records into the index bounds.
fn take_index_values(b: &mut IndexBounds, proto: &Vec<Record>, vals: &Vec<RecordValue>)
    requires
        vals@.len() == proto@.len(),
    ensures
        *final(b) == bounds_with(*old(b), proto@, vals@, proto@.len() as int),
{
    let mut i: usize = 0;
    while i < proto.len()
        invariant
            i <= proto@.len(),
            vals@.len() == proto@.len(),
            *b == bounds_with(*old(b), proto@, vals@, i as int),
        decreases proto@.len() - i,
    {
        let k = proto[i].name.kind_index();
        match vals[i] {
            RecordValue::Integer(v) => {
                if k == 14 {
                    update_min(v, &mut b.row_min);
                    update_max(v, &mut b.row_max);
                } else if k == 15 {
                    update_min(v, &mut b.column_min);
                    update_max(v, &mut b.column_max);
                } else if k == 17 {
                    update_min(v, &mut b.return_min);
                    update_max(v, &mut b.return_max);
                }
            },
            _ => {},
        }
        i = i + 1;
    }
}

/// Whether the point has a value of the right kind for each record of the prototype.
fn check_point(proto: &Vec<Record>, vals: &Vec<RecordValue>) -> (r: Result<()>)
    ensures
        r is Ok <==> point_fits(proto@, vals@),
        r matches Err(e) ==> e is Invalid,
{
    if vals.len() != proto.len() {
        return Error::invalid("Number of values does not match prototype length");
    }
    let mut i: usize = 0;
    while i < proto.len()
        invariant
            i <= proto@.len(),
            vals@.len() == proto@.len(),
            forall|j: int| 0 <= j < i ==> #[trigger] proto@[j].data_type.accepts(vals@[j]),
        decreases proto@.len() - i,
    {
        let ok = match (&proto[i].data_type, &vals[i]) {
            (RecordDataType::Single { .. }, RecordValue::Single(_)) => true,
            (RecordDataType::Double { .. }, RecordValue::Double(_)) => true,
            (RecordDataType::ScaledInteger { .. }, RecordValue::ScaledInteger(_)) => true,
            (RecordDataType::Integer { .. }, RecordValue::Integer(_)) => true,
            _ => false,
        };
        if !ok {
            assert(!proto@[i as int].data_type.accepts(vals@[i as int]));
            return Error::invalid("Type mismatch: value type does not match prototype");
        }
        i = i + 1;
    }
    Ok(())
}

impl CompressedVectorWriter {
    /// The point is taken: the writer has not failed, the point fits the prototype, its
    /// index values are integers and the point count can grow.
    pub open spec fn takes(&self, values: Seq<RecordValue>) -> bool {
        &&& !self.has_failed()
        &&& point_fits(self.proto(), values)
        &&& index_values_ok(self.proto(), values)
        &&& self.points() < u64::MAX
    }

    /// Adds a point: buffers its values, takes its index values into the index bounds, and
    /// writes a data packet once a packet's worth of points is buffered.
    pub fn add_point(&mut self, writer: &mut PagedWriter, values: Vec<RecordValue>) -> (r: Result<()>)
        requires
            old(self).wf(),
            old(writer).wf(),
        ensures
            final(self).wf(),
            final(writer).wf(),
            final(self).proto() == old(self).proto(),
            final(self).offset() == old(self).offset(),
            !old(self).takes(values@) ==> (r is Err && *final(self) == *old(self) && *final(writer) == *old(writer)),
            old(self).has_failed() ==> (r matches Err(e) && e is Internal),
            !old(self).has_failed() && !point_fits(old(self).proto(), values@) ==> (r matches Err(e) && e is Invalid),
            !old(self).has_failed() && point_fits(old(self).proto(), values@) && !old(self).takes(values@) ==> (
            r matches Err(e) && e is Internal),
            old(self).takes(values@) ==> {
                &&& r is Ok ==> final(self).points() == old(self).points() + 1
                &&& r is Ok ==> final(self).bounds() == match old(self).bounds() {
                    Some(b) => Some(bounds_with(b, old(self).proto(), values@, old(self).proto().len() as int)),
                    None => None,
                }
                &&& old(self).buffered().len() + 1 < old(self).packet_points() ==> (r is Ok
                    && final(self).buffered() == old(self).buffered().push(values)
                    && final(self).streams() == old(self).streams() && final(self).header() == old(self).header()
                    && *final(writer) == *old(writer))
                &&& old(self).buffered().len() + 1 == old(self).packet_points() ==> (r is Ok ==> (final(self).buffered().len() == 0
                    && exists|mid: Seq<ByteStreamWriteBuffer>|
                        serialized(old(self).proto(), old(self).streams(), mid, old(self).buffered().push(values))
                            && #[trigger] final(self).packet_written(*old(self), *old(writer), *final(writer), mid, false)))
                &&& r matches Err(e) ==> final(self).has_failed() && ((e is Internal && old(self).header().section_length
                    + 65535 > u64::MAX) || (e is Write && final(writer).file().len() + 2048 > usize::MAX))
            },
    {
        if self.failed {
            return Error::internal("The point cloud writer failed before and takes no more points");
        }
        match check_point(&self.prototype, &values) {
            Ok(()) => {},
            Err(e) => {
                return Err(e);
            },
        }
        if !check_index_values(&self.prototype, &values) {
            return Error::internal("Tried to convert value to i64 with unsupported data type");
        }
        if self.point_count == u64::MAX {
            return Error::internal("Too many points in one point cloud");
        }
        match self.index_bounds {
            Some(b) => {
                let mut bounds = b;
                take_index_values(&mut bounds, &self.prototype, &values);
                self.index_bounds = Some(bounds);
            },
            None => {},
        }
        self.buffer.push_back(values);
        self.point_count = self.point_count + 1;
        proof {
            assert forall|j: int| 0 <= j < self.buffer@.len() implies point_fits(self.prototype@, #[trigger] self.buffer@[j]@) by {
                if j < old(self).buffered().len() {
                    assert(self.buffer@[j] == old(self).buffered()[j]);
                }
            }
        }
        if self.buffer.len() >= self.max_points_per_packet {
            let ghost pushed = *self;
            let r = self.write_buffer_to_disk(writer, false);
            proof {
                if r is Ok {
                    let k = pushed.buffered().len() as int;
                    let mid = choose|mid: Seq<ByteStreamWriteBuffer>|
                        serialized(pushed.proto(), pushed.streams(), mid, pushed.buffered().take(k))
                            && #[trigger] self.packet_written(pushed, *old(writer), *writer, mid, false);
                    assert(pushed.buffered().take(k) =~= old(self).buffered().push(values));
                    assert(self.packet_written(*old(self), *old(writer), *writer, mid, false));
                }
            }
            return r;
        }
        Ok(())
    }
}

/// The logical offset of a physical offset outside the checksums of 1024-byte pages.
pub open spec fn logical_of(pos: int) -> int {
    (pos / 1024) * 1020 + pos % 1024
}

impl CompressedVectorWriter {
    /// What finishing the section did: the buffered points went into a data packet, the
    /// remaining bytes of the byte streams into a last one (each packet only where it has
    /// bytes), and the final section header was written over the preliminary one, leaving
    /// the writer behind the last packet.
    pub open spec fn finished(
        &self,
        before: CompressedVectorWriter,
        w0: PagedWriter,
        s1: CompressedVectorWriter,
        w1: PagedWriter,
        mid1: Seq<ByteStreamWriteBuffer>,
        w2: PagedWriter,
        mid2: Seq<ByteStreamWriteBuffer>,
        w3: PagedWriter,
    ) -> bool {
        &&& before.buffered().len() == 0 ==> s1 == before && w1 == w0
        &&& before.buffered().len() > 0 ==> serialized(before.proto(), before.streams(), mid1, before.buffered())
            && s1.packet_written(before, w0, w1, mid1, false)
        &&& serialized(before.proto(), s1.streams(), mid2, Seq::empty())
        &&& self.packet_written(s1, w1, w2, mid2, true)
        &&& w3.content() == padded(written_at(w2.content(), logical_of(before.offset() as int), self.header().bytes()))
        &&& w3.logical_position() == w2.logical_position()
    }

    /// Writes the buffered points and the remaining bytes of the byte streams as data
    /// packets, and writes the final section header with the length of the section.
    pub fn finalize(&mut self, writer: &mut PagedWriter) -> (r: Result<()>)
        requires
            old(self).wf(),
            old(writer).wf(),
        ensures
            final(self).wf(),
            final(writer).wf(),
            final(self).proto() == old(self).proto(),
            final(self).offset() == old(self).offset(),
            final(self).points() == old(self).points(),
            final(self).bounds() == old(self).bounds(),
            old(self).has_failed() ==> (r matches Err(e) && e is Internal && *final(self) == *old(self)
                && *final(writer) == *old(writer)),
            r is Ok ==> final(self).buffered().len() == 0 && forall|i: int|
                0 <= i < final(self).streams().len() ==> (#[trigger] final(self).streams()[i]).data().len() == 0,
            r is Ok ==> exists|
                s1: CompressedVectorWriter,
                w1: PagedWriter,
                mid1: Seq<ByteStreamWriteBuffer>,
                w2: PagedWriter,
                mid2: Seq<ByteStreamWriteBuffer>,
            | #[trigger] final(self).finished(*old(self), *old(writer), s1, w1, mid1, w2, mid2, *final(writer)),
            r matches Err(e) ==> e is Internal || e is Write,
            !old(self).has_failed() ==> (r matches Err(e) ==> (e is Internal ==> old(self).header().section_length + 2
                * 65535 > u64::MAX)),
            !old(self).has_failed() && old(self).header().section_length + 2 * 65535 <= u64::MAX ==> (r is Ok || (r matches Err(e)
                && e is Write && (final(writer).file().len() + 2048 > usize::MAX || old(self).offset()
                > final(writer).flushed().len()))),
    {
        if self.failed {
            return Error::internal("The point cloud writer failed before and cannot be finalized");
        }
        let ghost s0 = *self;
        let ghost w0 = *writer;
        if self.buffer.len() > 0 {
            match self.write_buffer_to_disk(writer, false) {
                Ok(()) => {},
                Err(e) => {
                    return Err(e);
                },
            }
        }
        let ghost s1 = *self;
        let ghost w1 = *writer;
        let ghost mid1 = if s0.buffered().len() > 0 {
            choose|mid: Seq<ByteStreamWriteBuffer>|
                serialized(s0.proto(), s0.streams(), mid, s0.buffered().take(s0.buffered().len() as int))
                    && #[trigger] s1.packet_written(s0, w0, w1, mid, false)
        } else {
            s0.streams()
        };
        proof {
            assert(s0.buffered().take(s0.buffered().len() as int) =~= s0.buffered());
        }
        match self.write_buffer_to_disk(writer, true) {
            Ok(()) => {},
            Err(e) => {
                return Err(e);
            },
        }
        let ghost w2 = *writer;
        let ghost mid2 = choose|mid: Seq<ByteStreamWriteBuffer>|
            serialized(s1.proto(), s1.streams(), mid, s1.buffered().take(0))
                && #[trigger] self.packet_written(s1, w1, w2, mid, true);
        proof {
            assert(s1.buffered().take(0) =~= Seq::<Vec<RecordValue>>::empty());
            w2.lemma_content();
            w2.lemma_position();
        }
        let end_offset = match writer.physical_position() {
            Ok(p) => p,
            Err(e) => {
                self.failed = true;
                return Err(e);
            },
        };
        match writer.physical_seek(self.section_offset) {
            Ok(()) => {},
            Err(e) => {
                self.failed = true;
                return Err(e);
            },
        }
        let ghost ws = *writer;
        match self.section_header.write(writer) {
            Ok(()) => {},
            Err(e) => {
                self.failed = true;
                return Err(e);
            },
        }
        let ghost wh = *writer;
        proof {
            wh.lemma_content();
            lemma_written_after_len(wh, ws, self.section_header.bytes());
            wh.lemma_phys_within(end_offset as int);
        }
        match writer.physical_seek(end_offset) {
            Ok(()) => {},
            Err(e) => {
                self.failed = true;
                return Err(e);
            },
        }
        proof {
            assert(self.finished(s0, w0, s1, w1, mid1, w2, mid2, *writer));
        }
        Ok(())
    }

    /// Physical offset of the compressed vector section in the file.
    pub fn section_offset(&self) -> (r: u64)
        ensures
            r == self.offset(),
    {
        self.section_offset
    }

    /// Number of points added so far.
    pub fn point_count(&self) -> (r: u64)
        ensures
            r == self.points(),
    {
        self.point_count
    }

    /// The bounds of the row, column and return indices of the added points.
    pub fn index_bounds(&self) -> (r: Option<IndexBounds>)
        ensures
            r == self.bounds(),
    {
        self.index_bounds
    }
}

/// Whether any chunk holds a byte.
fn any_nonempty(chunks: &Vec<Vec<u8>>) -> (r: bool)
    ensures
        r == (total_len(chunk_views(chunks@)) > 0),
{
    let ghost views = chunk_views(chunks@);
    let mut i: usize = 0;
    proof {
        assert(views.take(0) =~= Seq::<Seq<u8>>::empty());
    }
    while i < chunks.len()
        invariant
            i <= chunks@.len(),
            views == chunk_views(chunks@),
            total_len(views.take(i as int)) == 0,
        decreases chunks@.len() - i,
    {
        assert(views.take(i + 1).drop_last() =~= views.take(i as int));
        if chunks[i].len() > 0 {
            proof {
                crate::pc_writer::lemma_total_len_prefix(views, i + 1);
            }
            return true;
        }
        i = i + 1;
    }
    assert(views.take(chunks@.len() as int) =~= views);
    false
}

/// After taking the chunk, at most an incomplete byte is left; none after the last packet.
proof fn lemma_chunk_rest(mid: ByteStreamWriteBuffer, rest: ByteStreamWriteBuffer, last_flush: bool, c: Seq<u8>)
    requires
        mid.wf(),
        chunk_taken(mid, rest, last_flush),
    ensures
        rest.wf(),
        rest.bit_len() < 8,
        rest.data().len() <= 1,
{
    if !last_flush {
        assert(rest.data().len() == mid.data().len() - mid.full_byte_count());
    }
}

/// Where chunk `i` holds at most `a + k * bits_i` bits, the chunks hold at most `a` bits per
/// chunk plus `k` times the bits of a point.
proof fn lemma_chunks_total(chunks: Seq<Seq<u8>>, proto: Seq<Record>, a: int, k: int)
    requires
        chunks.len() == proto.len(),
        a >= 0,
        k >= 0,
        forall|i: int|
            0 <= i < chunks.len() ==> 8 * (#[trigger] chunks[i]).len() <= a + k * proto[i].data_type.bit_size_spec(),
    ensures
        8 * total_len(chunks) <= a * chunks.len() + k * point_bits(proto),
    decreases chunks.len(),
{
    if chunks.len() > 0 {
        let c2 = chunks.drop_last();
        let p2 = proto.drop_last();
        assert forall|i: int| 0 <= i < c2.len() implies 8 * (#[trigger] c2[i]).len() <= a + k
            * p2[i].data_type.bit_size_spec() by {
            assert(c2[i] == chunks[i]);
            assert(p2[i] == proto[i]);
        }
        lemma_chunks_total(c2, p2, a, k);
        let b = proto.last().data_type.bit_size_spec() as int;
        let n2 = c2.len() as int;
        assert(8 * chunks.last().len() <= a + k * b);
        assert(k * point_bits(proto) == k * point_bits(p2) + k * b) by (nonlinear_arith)
            requires
                point_bits(proto) == point_bits(p2) + b,
        ;
        assert(a * chunks.len() == a * n2 + a) by (nonlinear_arith)
            requires
                chunks.len() == n2 + 1,
        ;
    }
}

/// The chunk of a byte stream buffer holds no more bits than the buffer, and all its bytes
/// hold fewer than eight bits more.
proof fn lemma_chunk_bits(bs: ByteStreamWriteBuffer, last_flush: bool)
    requires
        bs.wf(),
    ensures
        !last_flush ==> 8 * chunk(bs, last_flush).len() <= bs.bit_len(),
        last_flush ==> 8 * chunk(bs, last_flush).len() <= bs.bit_len() + 7,
{
}

/// The data packet of the chunks taken after serializing at most a packet's worth of points,
/// or of the incomplete bytes left once all points are serialized, fits the 16-bit packet
/// length.
proof fn lemma_packet_fits(
    proto: Seq<Record>,
    s: Seq<ByteStreamWriteBuffer>,
    mid: Seq<ByteStreamWriteBuffer>,
    k: int,
    last_flush: bool,
)
    requires
        s.len() == proto.len(),
        mid.len() == proto.len(),
        point_bits(proto) > 0,
        3 * proto.len() + 506 <= 65535,
        0 <= k <= max_packet_points(proto),
        last_flush ==> k == 0,
        forall|i: int| 0 <= i < s.len() ==> (#[trigger] s[i]).wf() && s[i].bit_len() < 8,
        forall|i: int|
            0 <= i < mid.len() ==> (#[trigger] mid[i]).wf() && mid[i].bit_len() == s[i].bit_len() + k
                * proto[i].data_type.bit_size_spec(),
    ensures
        aligned4(raw_packet_len(Seq::new(mid.len(), |i: int| chunk(mid[i], last_flush)))) <= 65535,
{
    let n = proto.len() as int;
    let chunks = Seq::new(mid.len(), |i: int| chunk(mid[i], last_flush));
    let bits = point_bits(proto);
    if last_flush {
        assert forall|i: int| 0 <= i < chunks.len() implies 8 * (#[trigger] chunks[i]).len() <= 8 + 0
            * proto[i].data_type.bit_size_spec() by {
            lemma_chunk_bits(mid[i], last_flush);
            assert(s[i].wf());
        }
        lemma_chunks_total(chunks, proto, 8, 0);
        assert(0 * bits == 0) by (nonlinear_arith);
    } else {
        assert forall|i: int| 0 <= i < chunks.len() implies 8 * (#[trigger] chunks[i]).len() <= 7 + k
            * proto[i].data_type.bit_size_spec() by {
            lemma_chunk_bits(mid[i], last_flush);
            assert(s[i].wf());
        }
        lemma_chunks_total(chunks, proto, 7, k);
        let room = (65535 - 6 - 2 * n - n - 500) * 8;
        assert(k * bits <= room) by (nonlinear_arith)
            requires
                bits > 0,
                room >= 0,
                0 <= k <= room / bits,
        ;
    }
}

} // verus!
