use crate::bitpack::{extracted_values, ints_fit, unpacked_int, BitPack};
use crate::bs_read::ByteStreamReadBuffer;
use crate::blob::readable_at;
use crate::cv_section::{cv_header_valid, CompressedVectorSectionHeader};
use crate::error::{Error, Result};
use crate::le_bytes::{le_at, read_u16_le};
use crate::packet::{data_header_valid, ignored_header_valid, index_header_valid, PacketHeader};
use crate::paged_reader::PagedReader;
use crate::record::{bits_needed, Record, RecordDataType, RecordValue};
use std::collections::VecDeque;
use vstd::prelude::*;

verus! {

/// Every value that unpacking the stream of a record of type `t` from bit `off` on gives fits
/// its kind: the integer values, their offsets added to the minimum, fit into an `i64`.
pub open spec fn stream_fits(t: RecordDataType, data: Seq<u8>, off: int) -> bool {
    match t {
        RecordDataType::ScaledInteger { min, max, .. } => max > min ==> ints_fit(data, off, min, max),
        RecordDataType::Integer { min, max } => max > min ==> ints_fit(data, off, min, max),
        _ => true,
    }
}

/// The values that unpacking the stream appends to the queue of a record of type `t` with a
/// non-zero bit size: as many values as there are complete groups of bits.
pub open spec fn unpacked(t: RecordDataType, data: Seq<u8>, off: int) -> Seq<RecordValue> {
    let bits = t.bit_size_spec() as int;
    let n = ((data.len() * 8 - off) / bits) as nat;
    let raw = extracted_values(data, off, bits, n);
    match t {
        RecordDataType::Single { .. } => raw.map_values(|v: u64| RecordValue::Single(v as u32)),
        RecordDataType::Double { .. } => raw.map_values(|v: u64| RecordValue::Double(v)),
        RecordDataType::ScaledInteger { min, max, .. } => raw.map_values(
            |v: u64| RecordValue::ScaledInteger(unpacked_int(v, min, max)),
        ),
        RecordDataType::Integer { min, max } => raw.map_values(|v: u64| RecordValue::Integer(unpacked_int(v, min, max))),
    }
}

/// The value that a record of type `t` with a zero bit size always has: its minimum.
pub open spec fn constant_value(t: RecordDataType) -> RecordValue {
    match t {
        RecordDataType::ScaledInteger { min, .. } => RecordValue::ScaledInteger(min),
        RecordDataType::Integer { min, .. } => RecordValue::Integer(min),
        RecordDataType::Single { .. } => RecordValue::Single(0),
        RecordDataType::Double { .. } => RecordValue::Double(0),
    }
}

/// What parsing appends to the queue of a record of type `t` from its stream `s`: the
/// unpacked values, or for a record with a zero bit size copies of its constant value until
/// the queue holds `min_size` values.
pub open spec fn parsed(t: RecordDataType, data: Seq<u8>, off: int, q: Seq<RecordValue>, min_size: int) -> Seq<RecordValue> {
    if t.bit_size_spec() == 0 {
        let missing = if min_size > q.len() {
            min_size - q.len()
        } else {
            0
        };
        q + Seq::new(missing as nat, |i: int| constant_value(t))
    } else {
        q + unpacked(t, data, off)
    }
}

/// Bit offset of the stream once parsing consumed the complete groups of bits.
pub open spec fn parsed_offset(t: RecordDataType, data: Seq<u8>, off: int) -> int {
    let bits = t.bit_size_spec() as int;
    if bits == 0 {
        off
    } else {
        off + ((data.len() * 8 - off) / bits) * bits
    }
}

/// Unpacks a byte stream into the queue of its record.
fn parse_stream(t: &RecordDataType, s: &mut ByteStreamReadBuffer, q: &mut VecDeque<RecordValue>, min_queue_size: usize) -> (r: Result<()>)
    requires
        old(s).wf(),
    ensures
        final(s).wf(),
        final(s).data() == old(s).data(),
        r is Ok <==> stream_fits(*t, old(s).data(), old(s).bit_offset()),
        r is Ok ==> final(s).bit_offset() == parsed_offset(*t, old(s).data(), old(s).bit_offset()),
        r is Ok ==> final(q)@ == parsed(*t, old(s).data(), old(s).bit_offset(), old(q)@, min_queue_size as int),
        r matches Err(e) ==> e is Invalid,
{
    let bits = t.bit_size();
    match t {
        RecordDataType::Single { .. } => {
            let r = BitPack::unpack_singles(s, q);
            Ok(())
        },
        RecordDataType::Double { .. } => {
            let r = BitPack::unpack_doubles(s, q);
            Ok(())
        },
        RecordDataType::ScaledInteger { min, max, .. } => {
            if bits == 0 {
                fill_queue(q, RecordValue::ScaledInteger(*min), min_queue_size);
                Ok(())
            } else {
                BitPack::unpack_scaled_ints(s, *min, *max, q)
            }
        },
        RecordDataType::Integer { min, max } => {
            if bits == 0 {
                fill_queue(q, RecordValue::Integer(*min), min_queue_size);
                Ok(())
            } else {
                BitPack::unpack_ints(s, *min, *max, q)
            }
        },
    }
}

/// Appends copies of `value` until the queue holds `size` values.
fn fill_queue(q: &mut VecDeque<RecordValue>, value: RecordValue, size: usize)
    ensures
        final(q)@ == old(q)@ + Seq::new(
            (if size > old(q)@.len() {
                size - old(q)@.len()
            } else {
                0
            }) as nat,
            |i: int| value,
        ),
{
    while q.len() < size
        invariant
            old(q)@.len() <= q@.len(),
            q@.len() <= (if size > old(q)@.len() { size as int } else { old(q)@.len() as int }),
            q@ == old(q)@ + Seq::new((q@.len() - old(q)@.len()) as nat, |i: int| value),
        decreases size - q@.len(),
    {
        q.push_back(value);
        assert(q@ =~= old(q)@ + Seq::new((q@.len() - old(q)@.len()) as nat, |i: int| value));
    }
}

/// Reads the data packets of a compressed vector section and decodes their byte streams into
/// one queue of raw values per record of the prototype.
pub struct QueueReader {
    prototype: Vec<Record>,
    byte_streams: Vec<ByteStreamReadBuffer>,
    queues: Vec<VecDeque<RecordValue>>,
}

/// The contents of the queues.
pub open spec fn queue_views(queues: Seq<VecDeque<RecordValue>>) -> Seq<Seq<RecordValue>> {
    Seq::new(queues.len(), |i: int| queues[i]@)
}

/// The smallest length of the first `k` queues.
pub open spec fn min_len(qs: Seq<Seq<RecordValue>>, k: int) -> int
    decreases k,
{
    if k <= 1 {
        qs[0].len() as int
    } else {
        let m = min_len(qs, k - 1);
        if qs[k - 1].len() < m {
            qs[k - 1].len() as int
        } else {
            m
        }
    }
}

/// Number of values a queue of a record with a non-zero bit size holds once a stream with
/// these bytes and this bit offset is unpacked into it.
pub open spec fn items(t: RecordDataType, data: Seq<u8>, off: int, q: Seq<RecordValue>) -> int {
    (data.len() * 8 - off) / (t.bit_size_spec() as int) + q.len()
}

/// The smallest number of values that the queues of the first `k` records with a non-zero bit
/// size hold once their streams are unpacked, at most `usize::MAX`.
pub open spec fn min_items(proto: Seq<Record>, ss: Seq<ByteStreamReadBuffer>, qs: Seq<Seq<RecordValue>>, k: int) -> int
    decreases k,
{
    if k <= 0 {
        usize::MAX as int
    } else {
        let m = min_items(proto, ss, qs, k - 1);
        if proto[k - 1].data_type.bit_size_spec() == 0 {
            m
        } else {
            let n = items(proto[k - 1].data_type, ss[k - 1].data(), ss[k - 1].bit_offset(), qs[k - 1]);
            if n < m {
                n
            } else {
                m
            }
        }
    }
}

/// Logical offset of byte stream `i` of a data packet whose streams start at `base`.
pub open spec fn chunk_start(base: int, sizes: Seq<u16>, i: int) -> int
    decreases i,
{
    if i <= 0 {
        base
    } else {
        chunk_start(base, sizes, i - 1) + sizes[i - 1]
    }
}

/// `n` rounded up to a multiple of four.
pub open spec fn align4(n: int) -> int {
    if n % 4 == 0 {
        n
    } else {
        n + 4 - n % 4
    }
}

impl QueueReader {
    /// The prototype of the point cloud.
    pub closed spec fn proto(&self) -> Seq<Record> {
        self.prototype@
    }

    /// The byte streams, one per record.
    pub closed spec fn streams(&self) -> Seq<ByteStreamReadBuffer> {
        self.byte_streams@
    }

    /// The queues of decoded values, one per record.
    pub closed spec fn queues(&self) -> Seq<Seq<RecordValue>> {
        queue_views(self.queues@)
    }

    /// Well-formedness: one stream and one queue per record, and streams of bounded size.
    pub open spec fn wf(&self) -> bool {
        &&& self.streams().len() == self.proto().len()
        &&& self.queues().len() == self.proto().len()
        &&& forall|i: int| 0 <= i < self.streams().len() ==> (#[trigger] self.streams()[i]).wf()
            && self.streams()[i].data().len() <= 0x1000_0000
    }

    /// Number of complete points in the queues: the length of the shortest queue; zero without queues.
    pub fn available(&self) -> (r: usize)
        requires
            self.wf(),
        ensures
            r == if self.queues().len() == 0 {
                0
            } else {
                min_len(self.queues(), self.queues().len() as int)
            },
    {
        let n = self.queues.len();
        if n == 0 {
            return 0;
        }
        let mut av = self.queues[0].len();
        let mut i: usize = 1;
        while i < n
            invariant
                1 <= i <= n,
                n == self.queues@.len(),
                av == min_len(queue_views(self.queues@), i as int),
            decreases n - i,
        {
            let len = self.queues[i].len();
            if len < av {
                av = len;
            }
            i = i + 1;
        }
        av
    }

    /// Takes the values of the next point, the first value of each queue, into `output`.
    /// Fails if a queue is empty.
    pub fn pop_point(&mut self, output: &mut Vec<RecordValue>) -> (r: Result<()>)
        requires
            old(self).wf(),
        ensures
            final(self).wf(),
            final(self).proto() == old(self).proto(),
            final(self).streams() == old(self).streams(),
            r is Ok <==> forall|i: int| 0 <= i < old(self).queues().len() ==> #[trigger] old(self).queues()[i].len() > 0,
            r is Ok ==> final(output)@ == Seq::new(old(self).queues().len(), |i: int| old(self).queues()[i][0])
                && final(self).queues() == Seq::new(old(self).queues().len(), |i: int| old(self).queues()[i].drop_first()),
            r matches Err(e) ==> e is Internal,
    {
        let n = self.queues.len();
        let ghost q0 = self.queues();
        let mut k: usize = 0;
        while k < n
            invariant
                n == self.queues@.len(),
                q0 == queue_views(self.queues@),
                q0 == old(self).queues(),
                *self == *old(self),
                old(self).wf(),
                k <= n,
                forall|j: int| 0 <= j < k ==> #[trigger] q0[j].len() > 0,
            decreases n - k,
        {
            if self.queues[k].len() == 0 {
                proof {
                    assert(q0[k as int] == self.queues@[k as int]@);
                }
                return Error::internal("Failed to pop value for next point");
            }
            proof {
                assert(q0[k as int] == self.queues@[k as int]@);
            }
            k = k + 1;
        }
        output.clear();
        let mut done: Vec<VecDeque<RecordValue>> = Vec::new();
        let mut i: usize = 0;
        while i < n
            invariant
                n == q0.len(),
                i <= n,
                queue_views(self.queues@) == q0.skip(i as int),
                self.queues@.len() == n - i,
                done@.len() == i,
                output@.len() == i,
                forall|j: int| 0 <= j < n ==> #[trigger] q0[j].len() > 0,
                forall|j: int| 0 <= j < i ==> #[trigger] output@[j] == q0[j][0],
                forall|j: int| 0 <= j < i ==> (#[trigger] done@[j])@ == q0[j].drop_first(),
                self.prototype@ == old(self).proto(),
                self.byte_streams@ == old(self).streams(),
            decreases n - i,
        {
            assert(queue_views(self.queues@)[0] == self.queues@[0]@);
            let ghost prev = self.queues@;
            let mut q = self.queues.remove(0);
            assert(q@ == q0[i as int]);
            proof {
                assert forall|m: int| 0 <= m < self.queues@.len() implies #[trigger] queue_views(self.queues@)[m] == q0.skip(i + 1)[m] by {
                    assert(self.queues@[m] == prev[m + 1]);
                    assert(queue_views(prev)[m + 1] == prev[m + 1]@);
                }
            }
            match q.pop_front() {
                Some(v) => {
                    output.push(v);
                },
                None => {
                    proof {
                        assert(q0[i as int].len() > 0);
                    }
                },
            }
            done.push(q);
            i = i + 1;
            assert(queue_views(self.queues@) =~= q0.skip(i as int));
        }
        self.queues = done;
        assert forall|j: int| 0 <= j < q0.len() implies #[trigger] self.queues()[j] == q0[j].drop_first() by {
            assert(done@[j]@ == q0[j].drop_first());
        }
        assert(self.queues() =~= Seq::new(q0.len(), |j: int| q0[j].drop_first()));
        assert(output@ =~= Seq::new(q0.len(), |j: int| q0[j][0]));
        Ok(())
    }

    /// Unpacks each byte stream into the queue of its record; records with a zero bit size
    /// get copies of their constant value until their queue holds `min_queue_size` values.
    fn parse_byte_streams(&mut self, min_queue_size: usize) -> (r: Result<()>)
        requires
            old(self).wf(),
        ensures
            final(self).wf(),
            final(self).proto() == old(self).proto(),
            r is Ok <==> forall|i: int| 0 <= i < old(self).proto().len() ==> #[trigger] stream_fits(
                old(self).proto()[i].data_type,
                old(self).streams()[i].data(),
                old(self).streams()[i].bit_offset(),
            ),
            r matches Err(e) ==> e is Invalid,
            r is Ok ==> forall|i: int| 0 <= i < old(self).proto().len() ==> {
                let t = old(self).proto()[i].data_type;
                let s = old(self).streams()[i];
                &&& (#[trigger] final(self).streams()[i]).data() == s.data()
                &&& final(self).streams()[i].bit_offset() == parsed_offset(t, s.data(), s.bit_offset())
                &&& final(self).queues()[i] == parsed(t, s.data(), s.bit_offset(), old(self).queues()[i], min_queue_size as int)
            },
    {
        let n = self.prototype.len();
        let ghost s0 = self.streams();
        let ghost q0 = self.queues();
        let mut done_s: Vec<ByteStreamReadBuffer> = Vec::new();
        let mut done_q: Vec<VecDeque<RecordValue>> = Vec::new();
        let mut all_fit = true;
        let mut i: usize = 0;
        while i < n
            invariant
                n == old(self).proto().len(),
                self.prototype@ == old(self).proto(),
                s0 == old(self).streams(),
                q0 == old(self).queues(),
                s0.len() == n,
                q0.len() == n,
                i <= n,
                self.byte_streams@ == s0.skip(i as int),
                queue_views(self.queues@) == q0.skip(i as int),
                self.queues@.len() == n - i,
                done_s@.len() == i,
                done_q@.len() == i,
                forall|j: int| 0 <= j < n ==> (#[trigger] s0[j]).wf() && s0[j].data().len() <= 0x1000_0000,
                forall|j: int| 0 <= j < i ==> (#[trigger] done_s@[j]).wf() && done_s@[j].data() == s0[j].data(),
                all_fit <==> forall|j: int| 0 <= j < i ==> #[trigger] stream_fits(self.prototype@[j].data_type, s0[j].data(), s0[j].bit_offset()),
                forall|j: int| 0 <= j < i && stream_fits(self.prototype@[j].data_type, s0[j].data(), s0[j].bit_offset()) ==> {
                    let t = self.prototype@[j].data_type;
                    &&& (#[trigger] done_s@[j]).bit_offset() == parsed_offset(t, s0[j].data(), s0[j].bit_offset())
                    &&& done_q@[j]@ == parsed(t, s0[j].data(), s0[j].bit_offset(), q0[j], min_queue_size as int)
                },
            decreases n - i,
        {
            assert(queue_views(self.queues@)[0] == self.queues@[0]@);
            let ghost prev = self.queues@;
            let mut st = self.byte_streams.remove(0);
            let mut q = self.queues.remove(0);
            proof {
                assert forall|m: int| 0 <= m < self.queues@.len() implies #[trigger] queue_views(self.queues@)[m] == q0.skip(i + 1)[m] by {
                    assert(self.queues@[m] == prev[m + 1]);
                    assert(queue_views(prev)[m + 1] == prev[m + 1]@);
                }
            }
            assert(st == s0[i as int]);
            assert(q@ == q0[i as int]);
            match parse_stream(&self.prototype[i].data_type, &mut st, &mut q, min_queue_size) {
                Ok(()) => {},
                Err(_) => {
                    all_fit = false;
                },
            }
            done_s.push(st);
            done_q.push(q);
            i = i + 1;
            assert(queue_views(self.queues@) =~= q0.skip(i as int));
            assert(self.byte_streams@ =~= s0.skip(i as int));
        }
        self.byte_streams = done_s;
        self.queues = done_q;
        if all_fit {
            Ok(())
        } else {
            proof {
                let j = choose|j: int| 0 <= j < n && !#[trigger] stream_fits(self.prototype@[j].data_type, s0[j].data(), s0[j].bit_offset());
                assert(!stream_fits(old(self).proto()[j].data_type, old(self).streams()[j].data(), old(self).streams()[j].bit_offset()));
            }
            Error::invalid("Integer value of a point does not fit into 64 bits")
        }
    }
}

/// The `n` bytes of `c` from `start` on.
pub open spec fn bytes_at(c: Seq<u8>, start: int, n: int) -> Seq<u8> {
    Seq::new(n as nat, |j: int| c[start + j])
}

/// The sizes of the byte streams of a data packet at logical offset `p` with `n` streams.
pub open spec fn packet_sizes(c: Seq<u8>, p: int, n: int) -> Seq<u16> {
    Seq::new(n as nat, |i: int| le_at(c, p + 6 + 2 * i, 2) as u16)
}

/// Byte stream `i` of a data packet at logical offset `p` with `n` streams.
pub open spec fn packet_chunk(c: Seq<u8>, p: int, n: int, i: int) -> Seq<u8> {
    let sizes = packet_sizes(c, p, n);
    let start = chunk_start(p + 6 + 2 * n, sizes, i);
    bytes_at(c, start, sizes[i] as int)
}

/// The 4-byte-aligned offset at or after `q` lies within the file.
pub open spec fn align_ok(reader: PagedReader, q: int) -> bool {
    q % 4 == 0 || q + 4 - q % 4 <= reader.content().len()
}

/// Chunk `i` of a data packet, whose chunks start at `base`, can be read and appended to its
/// byte stream without the stream growing beyond 256 MiB.
pub open spec fn chunk_ok(reader: PagedReader, streams: Seq<ByteStreamReadBuffer>, sizes: Seq<u16>, base: int, i: int) -> bool {
    &&& readable_at(reader, chunk_start(base, sizes, i), sizes[i] as int)
    &&& streams[i].data().len() + sizes[i] <= 0x1000_0000
}

/// Reading the packet at the reader's offset succeeds: its ID byte names an index, data or
/// ignored packet, its header is readable and valid, its body is readable, a data packet has
/// one byte stream per record and streams that each buffer can take, and the offset after the
/// packet can be aligned to four bytes.
pub open spec fn packet_ok(reader: PagedReader, streams: Seq<ByteStreamReadBuffer>, n: int) -> bool {
    let p = reader.pos();
    let c = reader.content();
    let id = c[p];
    let len = le_at(c, p + 2, 2) + 1int;
    let sizes = packet_sizes(c, p, n);
    let base = p + 6 + 2 * n;
    &&& reader.can_read(1)
    &&& id <= 2
    &&& id == 0 ==> {
        &&& reader.can_read(16)
        &&& index_header_valid(reader.peek(16).skip(1))
        &&& len >= 16
        &&& readable_at(reader, p + 16, len - 16)
        &&& align_ok(reader, p + len)
    }
    &&& id == 2 ==> {
        &&& reader.can_read(4)
        &&& ignored_header_valid(reader.peek(4).skip(1))
        &&& readable_at(reader, p + 4, len - 4)
        &&& align_ok(reader, p + len)
    }
    &&& id == 1 ==> {
        &&& reader.can_read(6)
        &&& data_header_valid(reader.peek(6).skip(1))
        &&& le_at(c, p + 4, 2) == n
        &&& readable_at(reader, p + 6, 2 * n)
        &&& forall|i: int| 0 <= i < n ==> #[trigger] chunk_ok(reader, streams, sizes, base, i)
        &&& align_ok(reader, chunk_start(base, sizes, n))
    }
}

/// Every integer value that the byte streams of the data packet at the reader's offset give,
/// once appended to the streams, fits into an `i64`; true of other packets.
pub open spec fn data_fits(reader: PagedReader, streams: Seq<ByteStreamReadBuffer>, proto: Seq<Record>) -> bool {
    let p = reader.pos();
    let c = reader.content();
    let n = proto.len() as int;
    c[p] == 1 ==> forall|i: int| 0 <= i < n ==> #[trigger] stream_fits(
        proto[i].data_type,
        streams[i].data().skip(streams[i].bit_offset() / 8) + packet_chunk(c, p, n, i),
        streams[i].bit_offset() % 8,
    )
}

/// Reading `n` bytes at the offset of a reader over the same file checks the same bytes.
pub(crate) proof fn lemma_can_read(r1: PagedReader, r0: PagedReader, n: int)
    requires
        r1.wf(),
        r1.phys() == r0.phys(),
        r1.page_size_spec() == r0.page_size_spec(),
        n >= 0,
    ensures
        r1.can_read(n) == readable_at(r0, r1.pos(), n),
{
    assert(r1.content() == r0.content());
    assert forall|k: int| #![trigger r1.byte_valid(k)] #![trigger r0.byte_valid(k)] r1.byte_valid(k) == r0.byte_valid(k) by {}
}

/// Two readers over the same file find the same ranges readable.
pub(crate) proof fn lemma_readable_same(r1: PagedReader, r0: PagedReader, q: int, n: int)
    requires
        r1.phys() == r0.phys(),
        r1.page_size_spec() == r0.page_size_spec(),
    ensures
        readable_at(r1, q, n) == readable_at(r0, q, n),
{
    assert(r1.content() == r0.content());
    assert forall|k: int| #![trigger r1.byte_valid(k)] #![trigger r0.byte_valid(k)] r1.byte_valid(k) == r0.byte_valid(k) by {}
}

/// A readable range splits into two readable ranges, and two adjacent readable ranges join.
proof fn lemma_readable_split(r: PagedReader, q: int, a: int, b: int)
    requires
        0 <= q,
        0 <= a,
        0 <= b,
    ensures
        readable_at(r, q, a + b) == (readable_at(r, q, a) && readable_at(r, q + a, b)),
{
    if a > 0 && b > 0 && readable_at(r, q, a) && readable_at(r, q + a, b) {
        assert forall|k: int| q <= k < q + a + b implies #[trigger] r.byte_valid(k) by {
            if k < q + a {
                assert(q <= k < q + a);
            } else {
                assert(q + a <= k < q + a + b);
            }
        }
    }
}

/// Reads `n` little-endian 16-bit sizes.
fn read_sizes(reader: &mut PagedReader, n: usize) -> (r: Result<Vec<u16>>)
    requires
        old(reader).wf(),
    ensures
        final(reader).wf(),
        final(reader).phys() == old(reader).phys(),
        final(reader).page_size_spec() == old(reader).page_size_spec(),
        r is Ok <==> readable_at(*old(reader), old(reader).pos(), 2 * n),
        r matches Ok(v) ==> v@.len() == n && final(reader).pos() == old(reader).pos() + 2 * n
            && forall|i: int| 0 <= i < n ==> #[trigger] v@[i] == le_at(old(reader).content(), old(reader).pos() + 2 * i, 2) as u16,
        r matches Err(e) ==> e is Read,
{
    let ghost p = reader.pos();
    let ghost r0 = *reader;
    let mut sizes: Vec<u16> = Vec::new();
    let mut i: usize = 0;
    while i < n
        invariant
            i <= n,
            reader.wf(),
            reader.phys() == old(reader).phys(),
            reader.page_size_spec() == old(reader).page_size_spec(),
            reader.content() == old(reader).content(),
            p == old(reader).pos(),
            reader.pos() == p + 2 * i,
            r0 == *old(reader),
            readable_at(r0, p, 2 * i),
            0 <= p,
            sizes@.len() == i,
            forall|j: int| 0 <= j < i ==> #[trigger] sizes@[j] == le_at(old(reader).content(), p + 2 * j, 2) as u16,
        decreases n - i,
    {
        let ghost q = reader.pos();
        let ghost c = reader.content();
        proof {
            lemma_can_read(*reader, r0, 2);
            lemma_readable_split(r0, p, 2 * i, 2);
            lemma_readable_split(r0, p, 2 * i + 2, 2 * (n - i - 1));
        }
        let b = match reader.read_exact(2) {
            Ok(b) => b,
            Err(_) => {
                return Err(Error::Read { desc: "Failed to read data packet buffer sizes".to_owned() });
            },
        };
        let size = read_u16_le(b.as_slice(), 0);
        proof {
            assert(b@.subrange(0, 2) =~= c.subrange(q, q + 2));
        }
        sizes.push(size);
        i = i + 1;
    }
    Ok(sizes)
}

proof fn lemma_chunk_start_mono(base: int, sizes: Seq<u16>, i: int)
    requires
        0 <= i,
    ensures
        chunk_start(base, sizes, i) >= base,
    decreases i,
{
    if i > 0 {
        lemma_chunk_start_mono(base, sizes, i - 1);
    }
}

impl QueueReader {
    /// Reads the byte streams of a data packet, one after the other with the given sizes, and
    /// appends each to the stream of its record. Fails if a stream would grow beyond 256 MiB.
    fn append_chunks(&mut self, reader: &mut PagedReader, sizes: &Vec<u16>) -> (r: Result<()>)
        requires
            old(self).wf(),
            old(reader).wf(),
            sizes@.len() == old(self).proto().len(),
        ensures
            final(self).wf(),
            final(reader).wf(),
            final(reader).phys() == old(reader).phys(),
            final(reader).page_size_spec() == old(reader).page_size_spec(),
            final(self).proto() == old(self).proto(),
            final(self).queues() == old(self).queues(),
            r is Ok <==> forall|i: int|
                0 <= i < sizes@.len() ==> #[trigger] chunk_ok(*old(reader), old(self).streams(), sizes@, old(reader).pos(), i),
            r is Ok ==> final(reader).pos() == chunk_start(old(reader).pos(), sizes@, sizes@.len() as int),
            r is Ok ==> forall|i: int| 0 <= i < sizes@.len() ==> {
                let s = old(self).streams()[i];
                let start = chunk_start(old(reader).pos(), sizes@, i);
                &&& (#[trigger] final(self).streams()[i]).data() == s.data().skip(s.bit_offset() / 8)
                    + bytes_at(old(reader).content(), start, sizes@[i] as int)
                &&& final(self).streams()[i].bit_offset() == s.bit_offset() % 8
            },
            r matches Err(e) ==> e is Read || e is Invalid,
    {
        let n = sizes.len();
        let ghost p0 = reader.pos();
        let ghost s0 = self.streams();
        let ghost c = reader.content();
        let ghost r0 = *reader;
        let mut done: Vec<ByteStreamReadBuffer> = Vec::new();
        let mut i: usize = 0;
        while i < n
            invariant
                n == sizes@.len(),
                n == s0.len(),
                i <= n,
                s0 == old(self).streams(),
                old(self).wf(),
                self.prototype@ == old(self).proto(),
                queue_views(self.queues@) == old(self).queues(),
                self.byte_streams@ == s0.skip(i as int),
                done@.len() == i,
                reader.wf(),
                reader.phys() == old(reader).phys(),
                reader.page_size_spec() == old(reader).page_size_spec(),
                reader.content() == c,
                c == old(reader).content(),
                p0 == old(reader).pos(),
                reader.pos() == chunk_start(p0, sizes@, i as int),
                r0 == *old(reader),
                forall|j: int| 0 <= j < i ==> #[trigger] chunk_ok(r0, s0, sizes@, p0, j),
                forall|j: int| 0 <= j < n ==> (#[trigger] s0[j]).wf() && s0[j].data().len() <= 0x1000_0000,
                forall|j: int| 0 <= j < i ==> {
                    let start = chunk_start(p0, sizes@, j);
                    &&& (#[trigger] done@[j]).wf()
                    &&& done@[j].data().len() <= 0x1000_0000
                    &&& done@[j].data() == s0[j].data().skip(s0[j].bit_offset() / 8) + bytes_at(c, start, sizes@[j] as int)
                    &&& done@[j].bit_offset() == s0[j].bit_offset() % 8
                },
            decreases n - i,
        {
            let size = sizes[i] as usize;
            let ghost q = reader.pos();
            proof {
                lemma_can_read(*reader, r0, size as int);
            }
            let chunk = match reader.read_exact(size) {
                Ok(b) => b,
                Err(_) => {
                    let ghost d = done@;
                    let ghost rest = self.byte_streams@;
                    done.append(&mut self.byte_streams);
                    self.byte_streams = done;
                    proof {
                        assert forall|j: int| 0 <= j < self.byte_streams@.len() implies (#[trigger] self.byte_streams@[j]).wf()
                            && self.byte_streams@[j].data().len() <= 0x1000_0000 by {
                            if j < i {
                                assert(self.byte_streams@[j] == d[j]);
                            } else {
                                assert(self.byte_streams@[j] == rest[j - i]);
                                assert(rest[j - i] == s0[j]);
                            }
                        }
                    }
                    assert(!chunk_ok(r0, s0, sizes@, p0, i as int));
                    return Err(Error::Read { desc: "Failed to read data packet buffers".to_owned() });
                },
            };
            let mut st = self.byte_streams.remove(0);
            assert(st == s0[i as int]);
            if st.buffered_bytes() + chunk.len() > 0x1000_0000 {
                let ghost d = done@;
                let ghost rest = self.byte_streams@;
                done.push(st);
                done.append(&mut self.byte_streams);
                self.byte_streams = done;
                proof {
                    assert forall|j: int| 0 <= j < self.byte_streams@.len() implies (#[trigger] self.byte_streams@[j]).wf()
                        && self.byte_streams@[j].data().len() <= 0x1000_0000 by {
                        if j < i {
                            assert(self.byte_streams@[j] == d[j]);
                        } else if j == i {
                            assert(self.byte_streams@[j] == s0[j]);
                        } else {
                            assert(self.byte_streams@[j] == rest[j - i - 1]);
                            assert(rest[j - i - 1] == s0[j]);
                        }
                    }
                }
                assert(!chunk_ok(r0, s0, sizes@, p0, i as int));
                return Err(Error::Invalid { desc: "Byte stream of a data packet is too large".to_owned() });
            }
            st.append(chunk.as_slice());
            proof {
                assert(chunk@ =~= bytes_at(c, q, size as int));
                assert(chunk_ok(r0, s0, sizes@, p0, i as int));
            }
            done.push(st);
            i = i + 1;
            assert(self.byte_streams@ =~= s0.skip(i as int));
        }
        self.byte_streams = done;
        Ok(())
    }
}

impl QueueReader {
    /// The smallest number of values that the queues of the records with a non-zero bit size
    /// hold once their streams are unpacked.
    fn min_queue_items(&self) -> (r: usize)
        requires
            self.wf(),
        ensures
            r == min_items(self.proto(), self.streams(), self.queues(), self.proto().len() as int),
    {
        let n = self.prototype.len();
        let mut m: usize = usize::MAX;
        let mut i: usize = 0;
        while i < n
            invariant
                self.wf(),
                n == self.proto().len(),
                i <= n,
                m == min_items(self.proto(), self.streams(), self.queues(), i as int),
            decreases n - i,
        {
            let bits = self.prototype[i].data_type.bit_size();
            if bits != 0 {
                assert(self.queues()[i as int] == self.queues@[i as int]@);
                let items: u128 = (self.byte_streams[i].available() / bits) as u128 + self.queues[i].len() as u128;
                if items < m as u128 {
                    m = items as usize;
                }
            }
            i = i + 1;
        }
        m
    }

    /// Reads the next packet and decodes a data packet into the queues; index and ignored
    /// packets are skipped. Leaves the reader at the next 4-byte-aligned offset.
    pub fn advance(&mut self, reader: &mut PagedReader) -> (r: Result<()>)
        requires
            old(self).wf(),
            old(reader).wf(),
        ensures
            final(self).wf(),
            final(reader).wf(),
            final(reader).phys() == old(reader).phys(),
            final(reader).page_size_spec() == old(reader).page_size_spec(),
            final(self).proto() == old(self).proto(),
            ({
                let p = old(reader).pos();
                let c = old(reader).content();
                let n = old(self).proto().len() as int;
                let id = c[p];
                &&& r is Ok && id == 0 ==> final(self).streams() == old(self).streams() && final(self).queues()
                    == old(self).queues() && final(reader).pos() == align4(p + le_at(c, p + 2, 2) + 1)
                &&& r is Ok && id == 2 ==> final(self).streams() == old(self).streams() && final(self).queues()
                    == old(self).queues() && final(reader).pos() == align4(p + le_at(c, p + 2, 2) + 1)
                &&& r is Ok && id == 1 ==> {
                    &&& le_at(c, p + 4, 2) == n
                    &&& final(reader).pos() == align4(chunk_start(p + 6 + 2 * n, packet_sizes(c, p, n), n))
                    &&& exists|mid: Seq<ByteStreamReadBuffer>| {
                        &&& mid.len() == n
                        &&& forall|i: int| 0 <= i < n ==> {
                            let s = old(self).streams()[i];
                            &&& (#[trigger] mid[i]).data() == s.data().skip(s.bit_offset() / 8) + packet_chunk(c, p, n, i)
                            &&& mid[i].bit_offset() == s.bit_offset() % 8
                        }
                        &&& forall|i: int| 0 <= i < n ==> {
                            let t = old(self).proto()[i].data_type;
                            let m = min_items(old(self).proto(), mid, old(self).queues(), n);
                            &&& (#[trigger] final(self).queues()[i]) == parsed(t, mid[i].data(), mid[i].bit_offset(), old(self).queues()[i], m)
                            &&& final(self).streams()[i].data() == mid[i].data()
                            &&& final(self).streams()[i].bit_offset() == parsed_offset(t, mid[i].data(), mid[i].bit_offset())
                        }
                    }
                }
                &&& r is Ok ==> id <= 2
            }),
            r is Ok <==> packet_ok(*old(reader), old(self).streams(), old(self).proto().len() as int) && data_fits(
                *old(reader),
                old(self).streams(),
                old(self).proto(),
            ),
            old(reader).can_read(6) && old(reader).content()[old(reader).pos()] == 1 && data_header_valid(
                old(reader).peek(6).skip(1),
            ) && le_at(old(reader).content(), old(reader).pos() + 4, 2) != old(self).proto().len() ==> (r matches Err(
                e,
            ) && e is Invalid),
            r matches Err(e) ==> e is Read || e is Invalid,
    {
        let ghost r0 = *reader;
        let ghost p = reader.pos();
        let ghost c = reader.content();
        let header = match PacketHeader::read(reader) {
            Ok(h) => h,
            Err(e) => {
                return Err(e);
            },
        };
        proof {
            assert(r0.peek(1)[0] == c[p]);
        }
        match header {
            PacketHeader::Index(h) => {
                proof {
                    assert(r0.peek(16).skip(1).subrange(1, 3) =~= c.subrange(p + 2, p + 4));
                    crate::bit_seq::lemma_le_nat_bound(c.subrange(p + 2, p + 4));
                    vstd::arithmetic::power2::lemma2_to64();
                }
                if h.packet_length < 16 {
                    return Error::invalid("Index packet is shorter than its header");
                }
                proof {
                    lemma_can_read(*reader, r0, h.packet_length - 16);
                }
                match reader.read_exact((h.packet_length - 16) as usize) {
                    Ok(_) => {},
                    Err(_) => {
                        return Err(Error::Read { desc: "Failed to read data of index packet".to_owned() });
                    },
                }
                assert(packet_ok(r0, old(self).streams(), old(self).proto().len() as int) == align_ok(r0, reader.pos()));
            },
            PacketHeader::Ignored(h) => {
                proof {
                    assert(r0.peek(4).skip(1).subrange(1, 3) =~= c.subrange(p + 2, p + 4));
                    crate::bit_seq::lemma_le_nat_bound(c.subrange(p + 2, p + 4));
                    vstd::arithmetic::power2::lemma2_to64();
                }
                proof {
                    lemma_can_read(*reader, r0, h.packet_length - 4);
                }
                match reader.read_exact((h.packet_length - 4) as usize) {
                    Ok(_) => {},
                    Err(_) => {
                        return Err(Error::Read { desc: "Failed to read data of ignored packet".to_owned() });
                    },
                }
                assert(packet_ok(r0, old(self).streams(), old(self).proto().len() as int) == align_ok(r0, reader.pos()));
            },
            PacketHeader::Data(h) => {
                proof {
                    assert(r0.peek(6).skip(1).subrange(3, 5) =~= c.subrange(p + 4, p + 6));
                }
                let n = self.prototype.len();
                if h.bytestream_count as usize != n {
                    return Error::invalid("Bytestream count does not match prototype size");
                }
                proof {
                    lemma_readable_same(*reader, r0, p + 6, 2 * n);
                }
                let sizes = match read_sizes(reader, n) {
                    Ok(v) => v,
                    Err(e) => {
                        return Err(e);
                    },
                };
                proof {
                    assert(sizes@ =~= packet_sizes(c, p, n as int));
                }
                let ghost base = p + 6 + 2 * n;
                let ghost r_call = *reader;
                let ghost s_call = self.streams();
                assert(r_call.pos() == base);
                match self.append_chunks(reader, &sizes) {
                    Ok(()) => {},
                    Err(e) => {
                        proof {
                            let i = choose|i: int| 0 <= i < n && !#[trigger] chunk_ok(r_call, s_call, sizes@, base, i);
                            lemma_readable_same(r_call, r0, chunk_start(base, sizes@, i), sizes@[i] as int);
                            assert(!chunk_ok(r0, old(self).streams(), packet_sizes(c, p, n as int), base, i));
                        }
                        return Err(e);
                    },
                }
                proof {
                    assert(le_at(c, p + 4, 2) == n);
                    assert(readable_at(r0, p + 6, 2 * n));
                    assert forall|i: int| 0 <= i < n implies #[trigger] chunk_ok(r0, old(self).streams(), packet_sizes(c, p, n as int), base, i) by {
                        assert(chunk_ok(r_call, s_call, sizes@, r_call.pos(), i));
                        lemma_readable_same(r_call, r0, chunk_start(base, sizes@, i), sizes@[i] as int);
                    }
                    assert(reader.pos() == chunk_start(base, packet_sizes(c, p, n as int), n as int));
                }
                let ghost mid = self.streams();
                let ghost q0 = self.queues();
                let min_queue_size = self.min_queue_items();
                proof {
                    assert(forall|i: int| 0 <= i < n ==> {
                        let s = old(self).streams()[i];
                        &&& (#[trigger] mid[i]).data() == s.data().skip(s.bit_offset() / 8) + packet_chunk(c, p, n as int, i)
                        &&& mid[i].bit_offset() == s.bit_offset() % 8
                    });
                    assert(c[p] == 1);
                }
                match self.parse_byte_streams(min_queue_size) {
                    Ok(()) => {},
                    Err(e) => {
                        proof {
                            let i = choose|i: int| 0 <= i < n && !#[trigger] stream_fits(
                                old(self).proto()[i].data_type,
                                mid[i].data(),
                                mid[i].bit_offset(),
                            );
                            assert(mid[i].data() == old(self).streams()[i].data().skip(old(self).streams()[i].bit_offset() / 8)
                                + packet_chunk(c, p, n as int, i));
                            assert(!data_fits(r0, old(self).streams(), old(self).proto()));
                        }
                        return Err(e);
                    },
                }
                proof {
                    assert forall|i: int| 0 <= i < n implies #[trigger] stream_fits(
                        old(self).proto()[i].data_type,
                        old(self).streams()[i].data().skip(old(self).streams()[i].bit_offset() / 8) + packet_chunk(c, p, n as int, i),
                        old(self).streams()[i].bit_offset() % 8,
                    ) by {
                        assert(stream_fits(old(self).proto()[i].data_type, mid[i].data(), mid[i].bit_offset()));
                    }
                    assert(data_fits(r0, old(self).streams(), old(self).proto()));
                }
                proof {
                    assert(q0 == old(self).queues());
                    assert(forall|i: int| 0 <= i < n ==> {
                        let s = old(self).streams()[i];
                        &&& (#[trigger] mid[i]).data() == s.data().skip(s.bit_offset() / 8) + packet_chunk(c, p, n as int, i)
                        &&& mid[i].bit_offset() == s.bit_offset() % 8
                    });
                    let m = min_items(old(self).proto(), mid, old(self).queues(), n as int);
                    assert(min_queue_size == m);
                    assert forall|i: int| 0 <= i < n implies {
                        let t = old(self).proto()[i].data_type;
                        &&& (#[trigger] self.queues()[i]) == parsed(t, mid[i].data(), mid[i].bit_offset(), old(self).queues()[i], m)
                        &&& self.streams()[i].data() == mid[i].data()
                        &&& self.streams()[i].bit_offset() == parsed_offset(t, mid[i].data(), mid[i].bit_offset())
                    } by {
                        assert(self.streams()[i].data() == mid[i].data());
                        assert(q0[i] == old(self).queues()[i]);
                    }
                    assert(mid.len() == n);
                }
                assert(packet_ok(r0, old(self).streams(), old(self).proto().len() as int) == align_ok(r0, reader.pos()));
            },
        }
        assert(reader.content() == r0.content());
        match reader.align() {
            Ok(_) => {},
            Err(_) => {
                return Err(
                    Error::Read {
                        desc: "Failed to align reader on next 4-byte offset after reading packet".to_owned(),
                    },
                );
            },
        }
        Ok(())
    }
}

impl QueueReader {
    /// Opens the compressed vector section at a physical file offset: reads its header and
    /// moves the reader to its first data packet.
    pub fn new(prototype: Vec<Record>, file_offset: u64, reader: &mut PagedReader) -> (r: Result<Self>)
        requires
            old(reader).wf(),
        ensures
            final(reader).wf(),
            final(reader).phys() == old(reader).phys(),
            final(reader).page_size_spec() == old(reader).page_size_spec(),
            ({
                let ps = old(reader).page_size_spec();
                let p = file_offset - (file_offset as int / ps) * 4;
                let header = Seq::new(32, |j: int| old(reader).content()[p + j]);
                let data_offset = le_at(header, 16, 8);
                &&& r is Ok <==> (file_offset < old(reader).phys().len() && readable_at(*old(reader), p, 32)
                    && cv_header_valid(header) && data_offset < old(reader).phys().len())
                &&& r matches Ok(q) ==> {
                    &&& q.wf()
                    &&& q.proto() == prototype@
                    &&& forall|i: int| 0 <= i < q.streams().len() ==> (#[trigger] q.streams()[i]).data().len() == 0
                        && q.streams()[i].bit_offset() == 0
                    &&& forall|i: int| 0 <= i < q.queues().len() ==> (#[trigger] q.queues()[i]).len() == 0
                    &&& final(reader).pos() == data_offset - (data_offset as int / ps) * 4
                }
            }),
            r matches Err(e) ==> e is Read || e is Invalid,
    {
        let ghost r0 = *reader;
        match reader.seek_physical(file_offset) {
            Ok(_) => {},
            Err(_) => {
                return Err(Error::Read { desc: "Cannot seek to compressed vector header".to_owned() });
            },
        }
        let ghost p = reader.pos();
        proof {
            assert forall|k: int| #![trigger reader.byte_valid(k)] #![trigger r0.byte_valid(k)] reader.byte_valid(k) == r0.byte_valid(k) by {}
            if reader.can_read(32) {
                assert(readable_at(r0, p, 32));
            }
            if readable_at(r0, p, 32) {
                assert forall|k: int| reader.pos() <= k < reader.pos() + 32 implies #[trigger] reader.byte_valid(k) by {
                    assert(r0.byte_valid(k));
                }
            }
            assert(reader.peek(32) =~= Seq::new(32, |j: int| r0.content()[p + j]));
        }
        let section_header = match CompressedVectorSectionHeader::read(reader) {
            Ok(h) => h,
            Err(e) => {
                return Err(e);
            },
        };
        match reader.seek_physical(section_header.data_offset) {
            Ok(_) => {},
            Err(_) => {
                return Err(Error::Read { desc: "Cannot seek to packet header".to_owned() });
            },
        }
        let n = prototype.len();
        let mut byte_streams: Vec<ByteStreamReadBuffer> = Vec::new();
        let mut queues: Vec<VecDeque<RecordValue>> = Vec::new();
        let mut i: usize = 0;
        while i < n
            invariant
                i <= n,
                byte_streams@.len() == i,
                queues@.len() == i,
                forall|j: int| 0 <= j < i ==> (#[trigger] byte_streams@[j]).wf() && byte_streams@[j].data().len() == 0
                    && byte_streams@[j].bit_offset() == 0,
                forall|j: int| 0 <= j < i ==> (#[trigger] queues@[j])@.len() == 0,
            decreases n - i,
        {
            byte_streams.push(ByteStreamReadBuffer::new());
            queues.push(VecDeque::new());
            i = i + 1;
        }
        let q = Self { prototype, byte_streams, queues };
        proof {
            assert forall|j: int| 0 <= j < q.queues().len() implies (#[trigger] q.queues()[j]).len() == 0 by {
                assert(q.queues()[j] == q.queues@[j]@);
            }
        }
        Ok(q)
    }
}

/// Appends the elements of a vector to the back of a queue, in order.
pub fn append_vec_to_queue<T: Copy>(v: &Vec<T>, q: &mut VecDeque<T>)
    ensures
        final(q)@ == old(q)@ + v@,
{
    let mut i: usize = 0;
    while i < v.len()
        invariant
            i <= v.len(),
            q@ == old(q)@ + v@.subrange(0, i as int),
        decreases v.len() - i,
    {
        q.push_back(v[i]);
        i = i + 1;
        assert(q@ =~= old(q)@ + v@.subrange(0, i as int));
    }
    assert(v@.subrange(0, v.len() as int) =~= v@);
}

} // verus!
