use crate::bs_write::ByteStreamWriteBuffer;
use crate::error::{Error, Result};
use crate::packet::DataPacketHeader;
use crate::paged_writer::{lemma_written_after_chain, lemma_written_after_nothing, PagedWriter};
use crate::record::{Record, RecordDataType, RecordName};
use vstd::prelude::*;

verus! {

/// The prototype has a record whose name is of kind `k` (see `RecordName::kind`).
pub open spec fn has_kind(p: Seq<Record>, k: int) -> bool {
    exists|i: int| 0 <= i < p.len() && #[trigger] p[i].name.kind() == k
}

/// Index `i` holds the first record of kind `k`.
pub open spec fn is_first(p: Seq<Record>, k: int, i: int) -> bool {
    &&& 0 <= i < p.len()
    &&& p[i].name.kind() == k
    &&& forall|j: int| 0 <= j < i ==> #[trigger] p[j].name.kind() != k
}

/// The data type of the first record of kind `k`, if there is one.
pub open spec fn first_type(p: Seq<Record>, k: int) -> Option<RecordDataType> {
    if has_kind(p, k) {
        Some(p[choose|i: int| is_first(p, k, i)].data_type)
    } else {
        None
    }
}

/// Number of the kinds `a`, `b` and `c` that the prototype has.
pub open spec fn count_kinds(p: Seq<Record>, a: int, b: int, c: int) -> int {
    (if has_kind(p, a) { 1int } else { 0int }) + (if has_kind(p, b) { 1int } else { 0int }) + (if has_kind(p, c) { 1int } else { 0int })
}

/// The data type is an integer type with exactly these limits.
pub open spec fn is_int_range(t: Option<RecordDataType>, min: i64, max: i64) -> bool {
    t matches Some(RecordDataType::Integer { min: a, max: b }) && a == min && b == max
}

/// The data type, if there is one, is an integer type.
pub open spec fn none_or_int(t: Option<RecordDataType>) -> bool {
    t is None || t matches Some(RecordDataType::Integer { .. })
}

/// Cartesian coordinates come as all three of X, Y and Z or not at all; an invalid state
/// needs them and is an integer between 0 and 2.
pub open spec fn cartesian_valid(p: Seq<Record>) -> bool {
    &&& (count_kinds(p, 0, 1, 2) == 0 || count_kinds(p, 0, 1, 2) == 3)
    &&& has_kind(p, 3) ==> has_kind(p, 0) && is_int_range(first_type(p, 3), 0, 2)
}

/// Spherical coordinates come as all three of azimuth, elevation and range or not at all;
/// an invalid state needs them and is an integer between 0 and 2; azimuth and elevation
/// are not integers.
pub open spec fn spherical_valid(p: Seq<Record>) -> bool {
    &&& (count_kinds(p, 5, 6, 4) == 0 || count_kinds(p, 5, 6, 4) == 3)
    &&& has_kind(p, 7) ==> has_kind(p, 5) && is_int_range(first_type(p, 7), 0, 2)
    &&& !(first_type(p, 5) matches Some(RecordDataType::Integer { .. }))
    &&& !(first_type(p, 6) matches Some(RecordDataType::Integer { .. }))
}

/// Colors come as all three of red, green and blue or not at all; the invalid flag needs
/// them and is an integer between 0 and 1.
pub open spec fn color_valid(p: Seq<Record>) -> bool {
    &&& (count_kinds(p, 10, 11, 12) == 0 || count_kinds(p, 10, 11, 12) == 3)
    &&& has_kind(p, 13) ==> has_kind(p, 10) && is_int_range(first_type(p, 13), 0, 1)
}

/// Return count and return index are integers and come both or not at all.
pub open spec fn return_valid(p: Seq<Record>) -> bool {
    &&& none_or_int(first_type(p, 16))
    &&& none_or_int(first_type(p, 17))
    &&& has_kind(p, 16) == has_kind(p, 17)
}

/// A prototype that point clouds can be written with.
pub open spec fn prototype_valid(p: Seq<Record>) -> bool {
    &&& cartesian_valid(p)
    &&& spherical_valid(p)
    &&& (has_kind(p, 0) || has_kind(p, 5))
    &&& color_valid(p)
    &&& return_valid(p)
    &&& none_or_int(first_type(p, 14))
    &&& none_or_int(first_type(p, 15))
    &&& has_kind(p, 9) ==> has_kind(p, 8) && is_int_range(first_type(p, 9), 0, 1)
    &&& has_kind(p, 19) ==> has_kind(p, 18) && is_int_range(first_type(p, 19), 0, 1)
}

/// Looks up the first record with the name of the given kind.
fn find_kind(prototype: &[Record], k: u8) -> (r: Option<usize>)
    ensures
        r is None <==> !has_kind(prototype@, k as int),
        r matches Some(i) ==> is_first(prototype@, k as int, i as int) && first_type(prototype@, k as int)
            == Some(prototype@[i as int].data_type),
{
    let mut i: usize = 0;
    while i < prototype.len()
        invariant
            i <= prototype@.len(),
            forall|j: int| 0 <= j < i ==> #[trigger] prototype@[j].name.kind() != k,
        decreases prototype@.len() - i,
    {
        if prototype[i].name.kind_index() == k {
            proof {
                let p = prototype@;
                assert(is_first(p, k as int, i as int));
                let c = choose|m: int| is_first(p, k as int, m);
                if c < i {
                    assert(p[c].name.kind() != k);
                } else if c > i {
                    assert(p[i as int].name.kind() == k);
                }
                assert(c == i);
            }
            return Some(i);
        }
        i = i + 1;
    }
    None
}

/// Whether the prototype has a record with the name of the given kind.
pub(crate) fn contains(prototype: &[Record], k: u8) -> (r: bool)
    ensures
        r == has_kind(prototype@, k as int),
{
    find_kind(prototype, k).is_some()
}

/// Whether the data type is an integer type with exactly these limits.
fn int_range(t: &RecordDataType, min: i64, max: i64) -> (r: bool)
    ensures
        r == is_int_range(Some(*t), min, max),
{
    match t {
        RecordDataType::Integer { min: a, max: b } => *a == min && *b == max,
        _ => false,
    }
}

/// Whether the data type is an integer type.
fn is_int(t: &RecordDataType) -> (r: bool)
    ensures
        r == (*t matches RecordDataType::Integer { .. }),
{
    match t {
        RecordDataType::Integer { .. } => true,
        _ => false,
    }
}

/// Number of the kinds `a`, `b` and `c` that the prototype has.
fn count_present(prototype: &[Record], a: u8, b: u8, c: u8) -> (r: u8)
    ensures
        r == count_kinds(prototype@, a as int, b as int, c as int),
{
    let mut n: u8 = 0;
    if contains(prototype, a) {
        n = n + 1;
    }
    if contains(prototype, b) {
        n = n + 1;
    }
    if contains(prototype, c) {
        n = n + 1;
    }
    n
}

/// Checks the Cartesian coordinates of a prototype.
pub fn validate_cartesian(prototype: &[Record]) -> (r: Result<()>)
    ensures
        r is Ok <==> cartesian_valid(prototype@),
        r matches Err(e) ==> e is Invalid,
{
    let n = count_present(prototype, 0, 1, 2);
    if n != 0 && n != 3 {
        return Error::invalid("You have to include all three Cartesian coordinates for X, Y and Z");
    }
    match find_kind(prototype, 3) {
        Some(i) => {
            if !contains(prototype, 0) {
                return Error::invalid("CartesianInvalidState requires Cartesian coordinates");
            }
            if !int_range(&prototype[i].data_type, 0, 2) {
                return Error::invalid("CartesianInvalidState needs to be an integer between 0 and 2");
            }
        },
        None => {},
    }
    Ok(())
}

/// Checks the spherical coordinates of a prototype.
pub fn validate_spherical(prototype: &[Record]) -> (r: Result<()>)
    ensures
        r is Ok <==> spherical_valid(prototype@),
        r matches Err(e) ==> e is Invalid,
{
    let n = count_present(prototype, 5, 6, 4);
    if n != 0 && n != 3 {
        return Error::invalid(
            "You have to include all three spherical coordinates for azimuth, elevation and range",
        );
    }
    match find_kind(prototype, 7) {
        Some(i) => {
            if !contains(prototype, 5) {
                return Error::invalid("SphericalInvalidState requires spherical coordinates");
            }
            if !int_range(&prototype[i].data_type, 0, 2) {
                return Error::invalid("SphericalInvalidState needs to be an integer between 0 and 2");
            }
        },
        None => {},
    }
    match find_kind(prototype, 5) {
        Some(i) => {
            if is_int(&prototype[i].data_type) {
                return Error::invalid("SphericalAzimuth cannot have an integer type");
            }
        },
        None => {},
    }
    match find_kind(prototype, 6) {
        Some(i) => {
            if is_int(&prototype[i].data_type) {
                return Error::invalid("SphericalElevation cannot have an integer type");
            }
        },
        None => {},
    }
    Ok(())
}

/// Checks the colors of a prototype.
pub fn validate_color(prototype: &[Record]) -> (r: Result<()>)
    ensures
        r is Ok <==> color_valid(prototype@),
        r matches Err(e) ==> e is Invalid,
{
    let n = count_present(prototype, 10, 11, 12);
    if n != 0 && n != 3 {
        return Error::invalid("You have to include all three color values for red, green and blue");
    }
    match find_kind(prototype, 13) {
        Some(i) => {
            if !contains(prototype, 10) {
                return Error::invalid("IsColorInvalid requires colors");
            }
            if !int_range(&prototype[i].data_type, 0, 1) {
                return Error::invalid("IsColorInvalid needs to be an integer between 0 and 1");
            }
        },
        None => {},
    }
    Ok(())
}

/// Checks the return count and index of a prototype.
pub fn validate_return(prototype: &[Record]) -> (r: Result<()>)
    ensures
        r is Ok <==> return_valid(prototype@),
        r matches Err(e) ==> e is Invalid,
{
    let mut n: u8 = 0;
    match find_kind(prototype, 16) {
        Some(i) => {
            n = n + 1;
            if !is_int(&prototype[i].data_type) {
                return Error::invalid("ReturnCount must have an integer type");
            }
        },
        None => {},
    }
    match find_kind(prototype, 17) {
        Some(i) => {
            n = n + 1;
            if !is_int(&prototype[i].data_type) {
                return Error::invalid("ReturnIndex must have an integer type");
            }
        },
        None => {},
    }
    if n != 0 && n != 2 {
        return Error::invalid("You have to include both, ReturnCount and ReturnIndex");
    }
    Ok(())
}

/// Checks that a prototype is complete and consistent for writing a point cloud.
pub fn validate_prototype(prototype: &[Record]) -> (r: Result<()>)
    ensures
        r is Ok <==> prototype_valid(prototype@),
        r matches Err(e) ==> e is Invalid,
{
    match validate_cartesian(prototype) {
        Ok(()) => {},
        Err(e) => {
            return Err(e);
        },
    }
    match validate_spherical(prototype) {
        Ok(()) => {},
        Err(e) => {
            return Err(e);
        },
    }
    if !contains(prototype, 0) && !contains(prototype, 5) {
        return Error::invalid("You have to include Cartesian or spherical coordinates");
    }
    match validate_color(prototype) {
        Ok(()) => {},
        Err(e) => {
            return Err(e);
        },
    }
    match validate_return(prototype) {
        Ok(()) => {},
        Err(e) => {
            return Err(e);
        },
    }
    match find_kind(prototype, 14) {
        Some(i) => {
            if !is_int(&prototype[i].data_type) {
                return Error::invalid("RowIndex must have an integer type");
            }
        },
        None => {},
    }
    match find_kind(prototype, 15) {
        Some(i) => {
            if !is_int(&prototype[i].data_type) {
                return Error::invalid("ColumnIndex must have an integer type");
            }
        },
        None => {},
    }
    match find_kind(prototype, 9) {
        Some(i) => {
            if !contains(prototype, 8) {
                return Error::invalid("IsIntensityInvalid requires Intensity");
            }
            if !int_range(&prototype[i].data_type, 0, 1) {
                return Error::invalid("IsIntensityInvalid needs to be an integer between 0 and 1");
            }
        },
        None => {},
    }
    match find_kind(prototype, 19) {
        Some(i) => {
            if !contains(prototype, 18) {
                return Error::invalid("IsTimeStampInvalid requires TimeStamp");
            }
            if !int_range(&prototype[i].data_type, 0, 1) {
                return Error::invalid("IsTimeStampInvalid needs to be an integer between 0 and 1");
            }
        },
        None => {},
    }
    Ok(())
}

/// The bytes of a byte stream buffer that go into the next data packet: all of them for
/// the last packet, else only the complete ones.
pub open spec fn chunk(bs: ByteStreamWriteBuffer, last_flush: bool) -> Seq<u8> {
    if last_flush {
        bs.data()
    } else {
        bs.data().take(bs.full_byte_count())
    }
}

/// The byte stream buffer once its chunk for the next data packet is taken.
pub open spec fn chunk_taken(before: ByteStreamWriteBuffer, after: ByteStreamWriteBuffer, last_flush: bool) -> bool {
    &&& after.wf()
    &&& last_flush ==> after.data() == Seq::<u8>::empty() && after.last_bit() == 0
    &&& !last_flush ==> after.data() == before.data().skip(before.full_byte_count()) && after.last_bit()
        == before.last_bit()
}

/// Sum of the lengths of the chunks.
pub open spec fn total_len(chunks: Seq<Seq<u8>>) -> int
    decreases chunks.len(),
{
    if chunks.len() == 0 {
        0
    } else {
        total_len(chunks.drop_last()) + chunks.last().len()
    }
}

/// The chunks one after the other.
pub open spec fn concat(chunks: Seq<Seq<u8>>) -> Seq<u8>
    decreases chunks.len(),
{
    if chunks.len() == 0 {
        Seq::empty()
    } else {
        concat(chunks.drop_last()) + chunks.last()
    }
}

/// The two little-endian bytes of a 16-bit value.
pub open spec fn u16_le(v: u16) -> Seq<u8> {
    seq![(v & 0xff) as u8, (v >> 8u16) as u8]
}

/// The lengths of the chunks as little-endian 16-bit values, one after the other.
pub open spec fn sizes_le(chunks: Seq<Seq<u8>>) -> Seq<u8>
    decreases chunks.len(),
{
    if chunks.len() == 0 {
        Seq::empty()
    } else {
        sizes_le(chunks.drop_last()) + u16_le(chunks.last().len() as u16)
    }
}

/// Length of a data packet with these chunks, before it is padded to four bytes.
pub open spec fn raw_packet_len(chunks: Seq<Seq<u8>>) -> int {
    6 + 2 * chunks.len() + total_len(chunks)
}

/// `n` rounded up to a multiple of four.
pub open spec fn aligned4(n: int) -> int {
    if n % 4 == 0 {
        n
    } else {
        n + 4 - n % 4
    }
}

/// The bytes of a data packet with these byte stream chunks that starts at logical offset
/// `at`: its header, the chunk sizes, the chunks, and zeros up to the next 4-byte-aligned offset.
pub open spec fn data_packet(chunks: Seq<Seq<u8>>, at: int) -> Seq<u8> {
    let raw = raw_packet_len(chunks);
    let header = DataPacketHeader {
        comp_restart_flag: false,
        packet_length: aligned4(raw) as u64,
        bytestream_count: chunks.len() as u16,
    };
    let end = at + raw;
    let k = if end % 4 == 0 {
        0
    } else {
        4 - end % 4
    };
    header.bytes() + sizes_le(chunks) + concat(chunks) + Seq::new(k as nat, |i: int| 0u8)
}

/// Takes the chunk for the next data packet out of each byte stream buffer.
pub(crate) fn take_chunks(streams: &mut Vec<ByteStreamWriteBuffer>, last_flush: bool) -> (r: Vec<Vec<u8>>)
    requires
        forall|i: int| 0 <= i < old(streams)@.len() ==> (#[trigger] old(streams)@[i]).wf(),
    ensures
        final(streams)@.len() == old(streams)@.len(),
        r@.len() == old(streams)@.len(),
        forall|i: int| 0 <= i < r@.len() ==> (#[trigger] r@[i])@ == chunk(old(streams)@[i], last_flush),
        forall|i: int|
            0 <= i < r@.len() ==> chunk_taken(old(streams)@[i], #[trigger] final(streams)@[i], last_flush),
{
    let n = streams.len();
    let mut done: Vec<ByteStreamWriteBuffer> = Vec::new();
    let mut chunks: Vec<Vec<u8>> = Vec::new();
    let mut i: usize = 0;
    while i < n
        invariant
            n == old(streams)@.len(),
            i <= n,
            streams@ == old(streams)@.skip(i as int),
            done@.len() == i,
            chunks@.len() == i,
            forall|j: int| 0 <= j < old(streams)@.len() ==> (#[trigger] old(streams)@[j]).wf(),
            forall|j: int| 0 <= j < i ==> (#[trigger] chunks@[j])@ == chunk(old(streams)@[j], last_flush),
            forall|j: int| 0 <= j < i ==> chunk_taken(old(streams)@[j], #[trigger] done@[j], last_flush),
        decreases n - i,
    {
        let mut bs = streams.remove(0);
        assert(bs == old(streams)@[i as int]);
        let data = if last_flush {
            bs.get_all_bytes()
        } else {
            bs.get_full_bytes()
        };
        done.push(bs);
        chunks.push(data);
        i = i + 1;
        assert(streams@ =~= old(streams)@.skip(i as int));
    }
    *streams = done;
    chunks
}

/// The byte contents of the chunks.
pub open spec fn chunk_views(chunks: Seq<Vec<u8>>) -> Seq<Seq<u8>> {
    Seq::new(chunks.len(), |i: int| chunks[i]@)
}

proof fn lemma_prefix_views(chunks: Seq<Vec<u8>>, i: int)
    requires
        0 <= i < chunks.len(),
    ensures
        chunk_views(chunks).take(i + 1).drop_last() == chunk_views(chunks).take(i),
        chunk_views(chunks).take(i + 1).last() == chunks[i]@,
{
    assert(chunk_views(chunks).take(i + 1).drop_last() =~= chunk_views(chunks).take(i));
}

/// Writes the lengths of the chunks as little-endian 16-bit values.
fn write_sizes(writer: &mut PagedWriter, chunks: &Vec<Vec<u8>>) -> (r: Result<()>)
    requires
        old(writer).wf(),
        total_len(chunk_views(chunks@)) <= 65532,
    ensures
        final(writer).wf(),
        r is Ok ==> final(writer).written_after(*old(writer), sizes_le(chunk_views(chunks@))),
        r is Err ==> final(writer).file().len() + 2048 > usize::MAX,
        r matches Err(e) ==> e is Write,
{
    let ghost views = chunk_views(chunks@);
    let ghost w0 = *writer;
    let n = chunks.len();
    proof {
        lemma_written_after_nothing(w0);
        assert(sizes_le(views.take(0)) =~= Seq::<u8>::empty());
    }
    let mut i: usize = 0;
    while i < n
        invariant
            n == chunks@.len(),
            views == chunk_views(chunks@),
            i <= n,
            w0.wf(),
            writer.wf(),
            writer.written_after(w0, sizes_le(views.take(i as int))),
            total_len(views) <= 65532,
        decreases n - i,
    {
        proof {
            lemma_prefix_views(chunks@, i as int);
            lemma_total_len_prefix(views, (i + 1) as int);
        }
        let len = chunks[i].len();
        proof {
            assert(chunks@[i as int]@.len() == len);
            lemma_total_len_nonneg(views.take(i as int));
            assert(total_len(views.take(i + 1)) == total_len(views.take(i as int)) + len);
        }
        let size = len as u16;
        let bytes: [u8; 2] = [(size & 0xff) as u8, (size >> 8u16) as u8];
        let ghost w1 = *writer;
        match writer.write_all(&bytes) {
            Ok(()) => {},
            Err(_) => {
                return Err(Error::Write { desc: "Cannot write data packet buffer size".to_owned() });
            },
        }
        proof {
            assert(bytes@ =~= u16_le(views.take(i + 1).last().len() as u16));
            lemma_written_after_chain(w0, w1, *writer, sizes_le(views.take(i as int)), bytes@);
            assert(sizes_le(views.take(i as int)) + bytes@ =~= sizes_le(views.take(i + 1)));
        }
        i = i + 1;
    }
    assert(views.take(n as int) =~= views);
    Ok(())
}

/// Writes the chunks one after the other.
fn write_chunks(writer: &mut PagedWriter, chunks: &Vec<Vec<u8>>) -> (r: Result<()>)
    requires
        old(writer).wf(),
    ensures
        final(writer).wf(),
        r is Ok ==> final(writer).written_after(*old(writer), concat(chunk_views(chunks@))),
        r is Err ==> final(writer).file().len() + 2048 > usize::MAX,
        r matches Err(e) ==> e is Write,
{
    let ghost views = chunk_views(chunks@);
    let ghost w0 = *writer;
    let n = chunks.len();
    proof {
        lemma_written_after_nothing(w0);
        assert(concat(views.take(0)) =~= Seq::<u8>::empty());
    }
    let mut i: usize = 0;
    while i < n
        invariant
            n == chunks@.len(),
            views == chunk_views(chunks@),
            i <= n,
            w0.wf(),
            writer.wf(),
            writer.written_after(w0, concat(views.take(i as int))),
        decreases n - i,
    {
        proof {
            lemma_prefix_views(chunks@, i as int);
        }
        let ghost w1 = *writer;
        match writer.write_all(chunks[i].as_slice()) {
            Ok(()) => {},
            Err(_) => {
                return Err(
                    Error::Write { desc: "Cannot write bytestream buffer into data packet".to_owned() },
                );
            },
        }
        proof {
            lemma_written_after_chain(w0, w1, *writer, concat(views.take(i as int)), chunks@[i as int]@);
            assert(concat(views.take(i as int)) + chunks@[i as int]@ =~= concat(views.take(i + 1)));
        }
        i = i + 1;
    }
    assert(views.take(n as int) =~= views);
    Ok(())
}

/// Length of a data packet with these chunks before padding, where it fits a 16-bit length.
fn packet_raw_len(chunks: &Vec<Vec<u8>>) -> (r: Option<usize>)
    ensures
        r matches Some(len) ==> len == raw_packet_len(chunk_views(chunks@)) && 6 <= len <= 65532,
        r is None ==> aligned4(raw_packet_len(chunk_views(chunks@))) > 65535,
{
    let ghost views = chunk_views(chunks@);
    let n = chunks.len();
    if n > 32763 {
        proof {
            lemma_total_len_nonneg(views);
        }
        return None;
    }
    let mut raw: usize = 6 + 2 * n;
    let mut i: usize = 0;
    proof {
        assert(views.take(0) =~= Seq::<Seq<u8>>::empty());
    }
    while i < n
        invariant
            n == chunks@.len(),
            n <= 32763,
            views == chunk_views(chunks@),
            i <= n,
            raw == 6 + 2 * n + total_len(views.take(i as int)),
            raw <= 65532,
        decreases n - i,
    {
        proof {
            lemma_prefix_views(chunks@, i as int);
            assert(views.take(i + 1).drop_last() == views.take(i as int));
        }
        let len = chunks[i].len();
        if len > 65532 - raw {
            proof {
                lemma_total_len_prefix(views, (i + 1) as int);
            }
            return None;
        }
        raw = raw + len;
        i = i + 1;
    }
    assert(views.take(n as int) =~= views);
    proof {
        lemma_total_len_nonneg(views);
    }
    Some(raw)
}

/// Writes a data packet with the given byte stream chunks and returns its length, which
/// is padded to four bytes. Fails, writing nothing, if the packet would be longer than a
/// 16-bit length allows.
#[verifier::rlimit(40)]
pub(crate) fn write_data_packet(writer: &mut PagedWriter, chunks: &Vec<Vec<u8>>) -> (r: Result<u64>)
    requires
        old(writer).wf(),
    ensures
        final(writer).wf(),
        ({
            let views = chunk_views(chunks@);
            let raw = raw_packet_len(views);
            &&& aligned4(raw) > 65535 ==> (r matches Err(e) && e is Internal && *final(writer) == *old(
                writer,
            ))
            &&& r matches Ok(len) ==> (len == aligned4(raw) && len <= 65535 && final(writer).written_after(
                *old(writer),
                data_packet(views, old(writer).logical_position()),
            ))
            &&& (r is Err && aligned4(raw) <= 65535) ==> (final(writer).file().len() + 2048 > usize::MAX && (r matches Err(e) && e is Write))
        }),
{
    let ghost views = chunk_views(chunks@);
    let raw = match packet_raw_len(chunks) {
        Some(len) => len,
        None => {
            return Error::internal("Invalid data packet length detected");
        },
    };
    let n = chunks.len();
    let packet_length: u64 = if raw % 4 == 0 {
        raw as u64
    } else {
        (raw + 4 - raw % 4) as u64
    };
    let ghost w0 = *writer;
    let header = DataPacketHeader { comp_restart_flag: false, packet_length, bytestream_count: n as u16 };
    match header.write(writer) {
        Ok(()) => {},
        Err(e) => {
            return Err(e);
        },
    }
    let ghost head = header.bytes();
    let ghost w1 = *writer;
    match write_sizes(writer, chunks) {
        Ok(()) => {},
        Err(e) => {
            return Err(e);
        },
    }
    let ghost w2 = *writer;
    match write_chunks(writer, chunks) {
        Ok(()) => {},
        Err(e) => {
            return Err(e);
        },
    }
    let ghost w3 = *writer;
    proof {
        lemma_written_after_chain(w0, w1, w2, head, sizes_le(views));
        lemma_written_after_chain(w0, w2, w3, head + sizes_le(views), concat(views));
        w3.lemma_position();
    }
    match writer.align() {
        Ok(()) => {},
        Err(_) => {
            return Err(
                Error::Write {
                    desc: "Failed to align writer on next 4-byte offset after writing data packet".to_owned(),
                },
            );
        },
    }
    proof {
        let k = if w3.page_offset() % 4 == 0 {
            0
        } else {
            4 - w3.page_offset() % 4
        };
        let zeros = Seq::new(k as nat, |j: int| 0u8);
        lemma_packet_lens(views);
        lemma_total_len_nonneg(views);
        assert(w3.logical_position() == w0.logical_position() + raw);
        assert(packet_length == aligned4(raw as int));
        lemma_written_after_chain(w0, w3, *writer, head + sizes_le(views) + concat(views), zeros);
        assert(head + sizes_le(views) + concat(views) + zeros =~= data_packet(views, w0.logical_position()));
    }
    Ok(packet_length)
}

proof fn lemma_packet_lens(chunks: Seq<Seq<u8>>)
    ensures
        sizes_le(chunks).len() == 2 * chunks.len(),
        concat(chunks).len() == total_len(chunks),
    decreases chunks.len(),
{
    if chunks.len() > 0 {
        lemma_packet_lens(chunks.drop_last());
    }
}

proof fn lemma_total_len_nonneg(chunks: Seq<Seq<u8>>)
    ensures
        total_len(chunks) >= 0,
    decreases chunks.len(),
{
    if chunks.len() > 0 {
        lemma_total_len_nonneg(chunks.drop_last());
    }
}

/// The total length of a prefix of the chunks is at most the total length of all.
pub(crate) proof fn lemma_total_len_prefix(chunks: Seq<Seq<u8>>, i: int)
    requires
        0 <= i <= chunks.len(),
    ensures
        total_len(chunks.take(i)) <= total_len(chunks),
        total_len(chunks.take(i)) >= 0,
    decreases chunks.len(),
{
    lemma_total_len_nonneg(chunks.take(i));
    if i < chunks.len() {
        assert(chunks.drop_last().take(i) =~= chunks.take(i));
        lemma_total_len_prefix(chunks.drop_last(), i);
        lemma_total_len_nonneg(chunks.drop_last());
    } else {
        assert(chunks.take(i) =~= chunks);
    }
}

/// Sum of the bit sizes of the records of a prototype: the bits of one point.
pub open spec fn point_bits(p: Seq<Record>) -> int
    decreases p.len(),
{
    if p.len() == 0 {
        0
    } else {
        point_bits(p.drop_last()) + p.last().data_type.bit_size_spec()
    }
}

/// Number of points that fit into one data packet: a packet holds up to 65535 bytes, less
/// the packet header, a 16-bit size for each byte stream, an incomplete byte for each byte
/// stream and a safety margin of 500 bytes.
pub open spec fn max_packet_points(p: Seq<Record>) -> int {
    ((65535 - 6 - 2 * p.len() - p.len() - 500) * 8) / point_bits(p)
}

proof fn lemma_point_bits_bound(p: Seq<Record>)
    ensures
        0 <= point_bits(p) <= 64 * p.len(),
    decreases p.len(),
{
    if p.len() > 0 {
        lemma_point_bits_bound(p.drop_last());
        crate::record::lemma_bits_needed_le_64_all(p.last().data_type);
    }
}

/// Calculates the maximum number of points per data packet.
pub fn get_max_packet_points(prototype: &[Record]) -> (r: usize)
    requires
        point_bits(prototype@) > 0,
        3 * prototype@.len() + 506 <= 65535,
    ensures
        r == max_packet_points(prototype@),
{
    let n = prototype.len();
    let mut bits: usize = 0;
    let mut i: usize = 0;
    proof {
        assert(prototype@.take(0) =~= Seq::<Record>::empty());
    }
    while i < n
        invariant
            n == prototype@.len(),
            3 * n + 506 <= 65535,
            i <= n,
            bits == point_bits(prototype@.take(i as int)),
            bits <= 64 * i,
        decreases n - i,
    {
        proof {
            assert(prototype@.take(i + 1).drop_last() =~= prototype@.take(i as int));
            crate::record::lemma_bits_needed_le_64_all(prototype@[i as int].data_type);
        }
        bits = bits + prototype[i].data_type.bit_size();
        i = i + 1;
    }
    assert(prototype@.take(n as int) =~= prototype@);
    ((65535 - 6 - 2 * n - n - 500) * 8) / bits
}

/// Lowers the minimum to `value` where it is smaller, or sets it where there is none.
pub fn update_min(value: i64, min: &mut Option<i64>)
    ensures
        *final(min) == Some(
            match *old(min) {
                Some(m) => if m > value {
                    value
                } else {
                    m
                },
                None => value,
            },
        ),
{
    match *min {
        Some(current) => {
            if current > value {
                *min = Some(value);
            }
        },
        None => {
            *min = Some(value);
        },
    }
}

/// Raises the maximum to `value` where it is larger, or sets it where there is none.
pub fn update_max(value: i64, max: &mut Option<i64>)
    ensures
        *final(max) == Some(
            match *old(max) {
                Some(m) => if m < value {
                    value
                } else {
                    m
                },
                None => value,
            },
        ),
{
    match *max {
        Some(current) => {
            if current < value {
                *max = Some(value);
            }
        },
        None => {
            *max = Some(value);
        },
    }
}

} // verus!
