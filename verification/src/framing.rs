use crate::le_bytes::le_at;
use crate::packet::{data_header_valid, lemma_data_header_roundtrip, lemma_le_two, DataPacketHeader};
use crate::bs_read::ByteStreamReadBuffer;
use crate::bs_write::ByteStreamWriteBuffer;
use crate::codec::{column, lemma_packet_values_roundtrip, value_in_range};
use crate::cv_writer::serialized;
use crate::pc_writer::{
    aligned4, chunk, concat, data_packet, lemma_total_len_prefix, raw_packet_len, sizes_le, total_len, u16_le,
};
use crate::queue_reader::{align4, chunk_start, min_items, packet_chunk, packet_sizes, parsed};
use crate::record::{Record, RecordValue};
use vstd::prelude::*;

verus! {

/// The total length grows by the length of each further chunk.
proof fn lemma_total_len_step(chunks: Seq<Seq<u8>>, i: int)
    requires
        0 <= i < chunks.len(),
    ensures
        total_len(chunks.take(i + 1)) == total_len(chunks.take(i)) + chunks[i].len(),
{
    assert(chunks.take(i + 1).drop_last() =~= chunks.take(i));
}

/// A chunk is no longer than all chunks together.
proof fn lemma_chunk_len_bound(chunks: Seq<Seq<u8>>, i: int)
    requires
        0 <= i < chunks.len(),
    ensures
        0 <= total_len(chunks.take(i)),
        total_len(chunks.take(i)) + chunks[i].len() <= total_len(chunks),
{
    lemma_total_len_step(chunks, i);
    lemma_total_len_prefix(chunks, i);
    lemma_total_len_prefix(chunks, i + 1);
}

/// The chunks one after the other are as long as all chunks together.
proof fn lemma_concat_len(chunks: Seq<Seq<u8>>)
    ensures
        concat(chunks).len() == total_len(chunks),
    decreases chunks.len(),
{
    if chunks.len() > 0 {
        lemma_concat_len(chunks.drop_last());
    }
}

/// Chunk `i` stands in the concatenation after the chunks before it.
proof fn lemma_concat_part(chunks: Seq<Seq<u8>>, i: int)
    requires
        0 <= i < chunks.len(),
    ensures
        concat(chunks).subrange(total_len(chunks.take(i)), total_len(chunks.take(i)) + chunks[i].len())
            == chunks[i],
    decreases chunks.len(),
{
    let front = chunks.drop_last();
    lemma_concat_len(front);
    lemma_concat_len(chunks);
    lemma_chunk_len_bound(chunks, i);
    if i == chunks.len() - 1 {
        assert(chunks.take(i) =~= front);
        assert(concat(chunks).subrange(total_len(front), total_len(front) + chunks[i].len()) =~= chunks[i]);
    } else {
        assert(front.take(i) =~= chunks.take(i));
        assert(front[i] == chunks[i]);
        lemma_concat_part(front, i);
        lemma_chunk_len_bound(front, i);
        let a = total_len(chunks.take(i));
        assert(concat(chunks).subrange(a, a + chunks[i].len()) =~= concat(front).subrange(a, a + chunks[i].len()));
    }
}

/// The sizes of the chunks take two bytes each, chunk `i`'s size at bytes `2i` and `2i + 1`.
proof fn lemma_sizes_part(chunks: Seq<Seq<u8>>, i: int)
    requires
        0 <= i < chunks.len(),
    ensures
        sizes_le(chunks).len() == 2 * chunks.len(),
        sizes_le(chunks).subrange(2 * i, 2 * i + 2) == u16_le(chunks[i].len() as u16),
    decreases chunks.len(),
{
    let front = chunks.drop_last();
    if i == chunks.len() - 1 {
        if front.len() > 0 {
            lemma_sizes_part(front, 0);
        }
        assert(sizes_le(chunks).subrange(2 * i, 2 * i + 2) =~= u16_le(chunks[i].len() as u16));
    } else {
        lemma_sizes_part(front, i);
        assert(front[i] == chunks[i]);
        assert(sizes_le(chunks).subrange(2 * i, 2 * i + 2) =~= sizes_le(front).subrange(2 * i, 2 * i + 2));
    }
}

/// Where the sizes are those of the chunks, chunk `i` starts after the chunks before it.
proof fn lemma_chunk_start(base: int, sizes: Seq<u16>, chunks: Seq<Seq<u8>>, i: int)
    requires
        sizes.len() == chunks.len(),
        forall|j: int| 0 <= j < chunks.len() ==> #[trigger] sizes[j] == chunks[j].len(),
        0 <= i <= chunks.len(),
    ensures
        chunk_start(base, sizes, i) == base + total_len(chunks.take(i)),
    decreases i,
{
    if i == 0 {
        assert(chunks.take(0) =~= Seq::<Seq<u8>>::empty());
    } else {
        lemma_chunk_start(base, sizes, chunks, i - 1);
        lemma_total_len_step(chunks, i - 1);
    }
}

/// The two little-endian bytes of a 16-bit value stand for the value.
proof fn lemma_u16_le(v: u16)
    ensures
        crate::bit_seq::le_nat(u16_le(v)) == v,
{
    lemma_le_two((v & 0xff) as u8, (v >> 8u16) as u8);
    assert(((v & 0xff) as u8) + 256 * ((v >> 8u16) as u8) == v) by (bit_vector);
}

/// A data packet that the writer frames reads back: where the logical content at offset `p`
/// holds the data packet of some chunks, the reader finds a data packet with one byte stream
/// per chunk and with the packet's length, byte stream `i` of the packet is chunk `i`, and the
/// next packet starts where the written packet ends.
pub proof fn lemma_data_packet_roundtrip(chunks: Seq<Seq<u8>>, c: Seq<u8>, p: int)
    requires
        0 <= p,
        aligned4(raw_packet_len(chunks)) <= 65535,
        p + data_packet(chunks, p).len() <= c.len(),
        c.subrange(p, p + data_packet(chunks, p).len()) == data_packet(chunks, p),
    ensures
        c[p] == 1,
        le_at(c, p + 2, 2) + 1 == aligned4(raw_packet_len(chunks)),
        le_at(c, p + 4, 2) == chunks.len(),
        chunks.len() > 0 ==> data_header_valid(c.subrange(p + 1, p + 6)),
        forall|i: int| 0 <= i < chunks.len() ==> #[trigger] packet_sizes(c, p, chunks.len() as int)[i] == chunks[i].len(),
        forall|i: int| 0 <= i < chunks.len() ==> #[trigger] packet_chunk(c, p, chunks.len() as int, i) == chunks[i],
        align4(chunk_start(p + 6 + 2 * chunks.len(), packet_sizes(c, p, chunks.len() as int), chunks.len() as int))
            == p + data_packet(chunks, p).len(),
{
    let n = chunks.len() as int;
    let raw = raw_packet_len(chunks);
    let d = data_packet(chunks, p);
    let h = DataPacketHeader {
        comp_restart_flag: false,
        packet_length: aligned4(raw) as u64,
        bytestream_count: chunks.len() as u16,
    };
    let sizes = sizes_le(chunks);
    let body = concat(chunks);
    lemma_concat_len(chunks);
    lemma_total_len_prefix(chunks, 0);
    if n > 0 {
        lemma_sizes_part(chunks, 0);
    } else {
        assert(sizes.len() == 0);
    }
    assert(sizes.len() == 2 * n);
    assert(h.bytes().len() == 6);
    assert(forall|j: int| 0 <= j < d.len() ==> #[trigger] c[p + j] == d[j]) by {
        assert forall|j: int| 0 <= j < d.len() implies #[trigger] c[p + j] == d[j] by {
            assert(c.subrange(p, p + d.len())[j] == d[j]);
        }
    }
    // The header.
    lemma_data_header_roundtrip(h);
    let hb = h.bytes().skip(1);
    assert(c.subrange(p + 1, p + 6) =~= hb) by {
        assert forall|j: int| 0 <= j < 5 implies #[trigger] c.subrange(p + 1, p + 6)[j] == hb[j] by {
            assert(c[p + 1 + j] == d[1 + j]);
        }
    }
    assert(c.subrange(p + 2, p + 4) =~= hb.subrange(1, 3));
    assert(c.subrange(p + 4, p + 6) =~= hb.subrange(3, 5));
    assert(c[p] == d[0]);
    // The sizes and the chunks.
    assert forall|i: int| 0 <= i < n implies #[trigger] packet_sizes(c, p, n)[i] == chunks[i].len() by {
        lemma_sizes_part(chunks, i);
        lemma_chunk_len_bound(chunks, i);
        assert(c.subrange(p + 6 + 2 * i, p + 6 + 2 * i + 2) =~= sizes.subrange(2 * i, 2 * i + 2)) by {
            assert forall|j: int| 0 <= j < 2 implies #[trigger] c.subrange(p + 6 + 2 * i, p + 6 + 2 * i + 2)[j]
                == sizes.subrange(2 * i, 2 * i + 2)[j] by {
                assert(c[p + (6 + 2 * i + j)] == d[6 + 2 * i + j]);
                assert(d[6 + 2 * i + j] == sizes[2 * i + j]);
            }
        }
        lemma_u16_le(chunks[i].len() as u16);
    }
    let ps = packet_sizes(c, p, n);
    let base = p + 6 + 2 * n;
    assert forall|i: int| 0 <= i < n implies #[trigger] packet_chunk(c, p, n, i) == chunks[i] by {
        assert(ps[i] == chunks[i].len());
        lemma_chunk_start(base, ps, chunks, i);
        lemma_chunk_len_bound(chunks, i);
        lemma_concat_part(chunks, i);
        let a = total_len(chunks.take(i));
        assert(packet_chunk(c, p, n, i) =~= chunks[i]) by {
            assert forall|j: int| 0 <= j < chunks[i].len() implies #[trigger] packet_chunk(c, p, n, i)[j] == chunks[i][j] by {
                assert(c[p + (6 + 2 * n + a + j)] == d[6 + 2 * n + a + j]);
                assert(d[6 + 2 * n + a + j] == body[a + j]);
                assert(body.subrange(a, a + chunks[i].len())[j] == body[a + j]);
            }
        }
    }
    lemma_chunk_start(base, ps, chunks, n);
    assert(chunks.take(n) =~= chunks);
}


/// A written data packet reads back as its points: where the logical content of a file holds
/// at `p` the data packet framed from the bytes of byte streams that the points were serialized
/// into, and a fresh read buffer per record receives byte stream `i` of the packet found there,
/// the streams parse back to the points as `lemma_packet_values_roundtrip` states.
pub proof fn lemma_packet_write_read(
    proto: Seq<Record>,
    old: Seq<ByteStreamWriteBuffer>,
    mid: Seq<ByteStreamWriteBuffer>,
    pts: Seq<Vec<RecordValue>>,
    c: Seq<u8>,
    p: int,
    rs: Seq<ByteStreamReadBuffer>,
)
    requires
        serialized(proto, old, mid, pts),
        old.len() == proto.len(),
        rs.len() == proto.len(),
        pts.len() <= usize::MAX,
        forall|i: int| 0 <= i < old.len() ==> (#[trigger] old[i]).data().len() == 0 && old[i].last_bit() == 0,
        forall|j: int| 0 <= j < pts.len() ==> (#[trigger] pts[j])@.len() == proto.len(),
        forall|j: int, i: int|
            0 <= j < pts.len() && 0 <= i < proto.len() ==> proto[i].data_type.accepts(#[trigger] pts[j]@[i])
                && value_in_range(proto[i].data_type, pts[j]@[i]),
        ({
            let chunks = Seq::new(mid.len(), |i: int| chunk(mid[i], true));
            &&& 0 <= p
            &&& aligned4(raw_packet_len(chunks)) <= 65535
            &&& p + data_packet(chunks, p).len() <= c.len()
            &&& c.subrange(p, p + data_packet(chunks, p).len()) == data_packet(chunks, p)
        }),
        forall|i: int| 0 <= i < rs.len() ==> (#[trigger] rs[i]).data() == packet_chunk(c, p, proto.len() as int, i)
            && rs[i].bit_offset() == 0,
    ensures
        ({
            let qs = Seq::new(proto.len(), |i: int| Seq::<RecordValue>::empty());
            let m = min_items(proto, rs, qs, proto.len() as int);
            &&& m >= pts.len()
            &&& forall|i: int| 0 <= i < proto.len() ==> {
                let q = #[trigger] parsed(proto[i].data_type, rs[i].data(), rs[i].bit_offset(), qs[i], m);
                &&& q.len() >= pts.len()
                &&& q.take(pts.len() as int) == column(pts, i)
            }
        }),
{
    let chunks = Seq::new(mid.len(), |i: int| chunk(mid[i], true));
    lemma_data_packet_roundtrip(chunks, c, p);
    assert forall|i: int| 0 <= i < rs.len() implies (#[trigger] rs[i]).data() == mid[i].data() && rs[i].bit_offset() == 0 by {
        assert(packet_chunk(c, p, chunks.len() as int, i) == chunks[i]);
    }
    lemma_packet_values_roundtrip(proto, old, mid, pts, rs);
}


} // verus!
