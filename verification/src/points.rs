use crate::blob::readable_at;
use crate::error::Result;
use crate::le_bytes::le_at;
use crate::packet::{data_header_valid, ignored_header_valid, index_header_valid};
use crate::paged_reader::PagedReader;
use crate::queue_reader::{
    align4, align_ok, chunk_ok, chunk_start, data_fits, items, lemma_can_read, lemma_readable_same, min_items,
    min_len, packet_chunk, packet_ok, packet_sizes, parsed, parsed_offset, stream_fits, QueueReader,
};
use crate::record::{Record, RecordValue};
use vstd::prelude::*;

verus! {

/// Chunks start no earlier than the first one.
proof fn lemma_chunk_start_grows(base: int, sizes: Seq<u16>, i: int)
    ensures
        chunk_start(base, sizes, i) >= base,
    decreases i,
{
    if i > 0 {
        lemma_chunk_start_grows(base, sizes, i - 1);
    }
}

/// The shortest of the first `k` queues is no longer than any of them.
proof fn lemma_min_len_le(qs: Seq<Seq<RecordValue>>, k: int, i: int)
    requires
        0 <= i < k,
    ensures
        min_len(qs, k) <= qs[i].len(),
    decreases k,
{
    if k > 1 && i < k - 1 {
        lemma_min_len_le(qs, k - 1, i);
    }
}

/// The queues once the first `j` values of each are taken.
pub open spec fn popped(qs: Seq<Seq<RecordValue>>, j: int) -> Seq<Seq<RecordValue>> {
    Seq::new(qs.len(), |i: int| qs[i].skip(j))
}

/// Taking `j` values from each queue shortens the shortest of the first `k` queues by `j`.
proof fn lemma_min_len_popped(qs: Seq<Seq<RecordValue>>, j: int, k: int)
    requires
        1 <= k <= qs.len(),
        0 <= j <= min_len(qs, k),
    ensures
        min_len(popped(qs, j), k) == min_len(qs, k) - j,
    decreases k,
{
    if k > 1 {
        lemma_min_len_le(qs, k, k - 1);
        assert(min_len(qs, k) <= min_len(qs, k - 1));
        lemma_min_len_popped(qs, j, k - 1);
    }
}

/// The number of available points is what popping gives: where the shortest queue holds `k`
/// values, each of the first `k` pops finds every queue non-empty, and after them the shortest
/// queue is empty.
pub proof fn lemma_available_pops(qs: Seq<Seq<RecordValue>>, j: int)
    requires
        qs.len() > 0,
        0 <= j <= min_len(qs, qs.len() as int),
    ensures
        j < min_len(qs, qs.len() as int) ==> forall|i: int| 0 <= i < qs.len() ==> #[trigger] popped(qs, j)[i].len() > 0,
        min_len(popped(qs, j), qs.len() as int) == min_len(qs, qs.len() as int) - j,
        j < min_len(qs, qs.len() as int) ==> popped(popped(qs, j), 1) == popped(qs, j + 1),
{
    let n = qs.len() as int;
    lemma_min_len_popped(qs, j, n);
    assert forall|i: int| 0 <= i < n && j < min_len(qs, n) implies #[trigger] popped(qs, j)[i].len() > 0 by {
        lemma_min_len_le(qs, n, i);
    }
    if j < min_len(qs, n) {
        assert forall|i: int| 0 <= i < n implies #[trigger] popped(popped(qs, j), 1)[i] == popped(qs, j + 1)[i] by {
            lemma_min_len_le(qs, n, i);
            assert(qs[i].skip(j).skip(1) =~= qs[i].skip(j + 1));
        }
        assert(popped(popped(qs, j), 1) =~= popped(qs, j + 1));
    }
}

/// The byte streams of a queue reader as plain values: the buffered bytes and the bit offset.
pub open spec fn stream_model(q: QueueReader) -> Seq<(Seq<u8>, int)> {
    Seq::new(q.streams().len(), |i: int| (q.streams()[i].data(), q.streams()[i].bit_offset()))
}

/// The `k` logical bytes of the content from `p` on.
pub open spec fn window(c: Seq<u8>, p: int, k: int) -> Seq<u8> {
    Seq::new(k as nat, |j: int| c[p + j])
}

/// Chunk `i` of a data packet can be read and appended to its stream model.
pub open spec fn chunk_ok_at(r0: PagedReader, ss: Seq<(Seq<u8>, int)>, sizes: Seq<u16>, base: int, i: int) -> bool {
    &&& readable_at(r0, chunk_start(base, sizes, i), sizes[i] as int)
    &&& ss[i].0.len() + sizes[i] <= 0x1000_0000
}

/// Reading the packet at logical offset `p` of the file that `r0` reads succeeds, for streams
/// with these models: `packet_ok` at an offset.
pub open spec fn packet_ok_at(r0: PagedReader, p: int, ss: Seq<(Seq<u8>, int)>, n: int) -> bool {
    let c = r0.content();
    let id = c[p];
    let len = le_at(c, p + 2, 2) + 1int;
    let sizes = packet_sizes(c, p, n);
    let base = p + 6 + 2 * n;
    &&& readable_at(r0, p, 1)
    &&& id <= 2
    &&& id == 0 ==> {
        &&& readable_at(r0, p, 16)
        &&& index_header_valid(window(c, p, 16).skip(1))
        &&& len >= 16
        &&& readable_at(r0, p + 16, len - 16)
        &&& align_ok(r0, p + len)
    }
    &&& id == 2 ==> {
        &&& readable_at(r0, p, 4)
        &&& ignored_header_valid(window(c, p, 4).skip(1))
        &&& readable_at(r0, p + 4, len - 4)
        &&& align_ok(r0, p + len)
    }
    &&& id == 1 ==> {
        &&& readable_at(r0, p, 6)
        &&& data_header_valid(window(c, p, 6).skip(1))
        &&& le_at(c, p + 4, 2) == n
        &&& readable_at(r0, p + 6, 2 * n)
        &&& forall|i: int| 0 <= i < n ==> #[trigger] chunk_ok_at(r0, ss, sizes, base, i)
        &&& align_ok(r0, chunk_start(base, sizes, n))
    }
}

/// The stream models once the byte streams of the data packet at `p` are appended.
pub open spec fn mid_at(ss: Seq<(Seq<u8>, int)>, c: Seq<u8>, p: int, n: int) -> Seq<(Seq<u8>, int)> {
    Seq::new(n as nat, |i: int| (ss[i].0.skip(ss[i].1 / 8) + packet_chunk(c, p, n, i), ss[i].1 % 8))
}

/// Every integer value of the data packet at `p` fits: `data_fits` at an offset.
pub open spec fn data_fits_at(r0: PagedReader, p: int, ss: Seq<(Seq<u8>, int)>, proto: Seq<Record>) -> bool {
    let c = r0.content();
    let n = proto.len() as int;
    c[p] == 1 ==> forall|i: int| 0 <= i < n ==> #[trigger] stream_fits(
        proto[i].data_type,
        mid_at(ss, c, p, n)[i].0,
        mid_at(ss, c, p, n)[i].1,
    )
}

/// `min_items` over stream models.
pub open spec fn min_items_at(proto: Seq<Record>, ms: Seq<(Seq<u8>, int)>, qs: Seq<Seq<RecordValue>>, k: int) -> int
    decreases k,
{
    if k <= 0 {
        usize::MAX as int
    } else {
        let m = min_items_at(proto, ms, qs, k - 1);
        if proto[k - 1].data_type.bit_size_spec() == 0 {
            m
        } else {
            let x = items(proto[k - 1].data_type, ms[k - 1].0, ms[k - 1].1, qs[k - 1]);
            if x < m {
                x
            } else {
                m
            }
        }
    }
}

/// The stream models, queues and offset after reading the packet at `p`: an index or ignored
/// packet is skipped; the byte streams of a data packet are appended and unpacked.
pub open spec fn advanced_state(
    proto: Seq<Record>,
    r0: PagedReader,
    p: int,
    ss: Seq<(Seq<u8>, int)>,
    qs: Seq<Seq<RecordValue>>,
) -> (Seq<(Seq<u8>, int)>, Seq<Seq<RecordValue>>, int) {
    let c = r0.content();
    let n = proto.len() as int;
    if c[p] == 1 {
        let mid = mid_at(ss, c, p, n);
        let m = min_items_at(proto, mid, qs, n);
        (
            Seq::new(n as nat, |i: int| (mid[i].0, parsed_offset(proto[i].data_type, mid[i].0, mid[i].1))),
            Seq::new(n as nat, |i: int| parsed(proto[i].data_type, mid[i].0, mid[i].1, qs[i], m)),
            align4(chunk_start(p + 6 + 2 * n, packet_sizes(c, p, n), n)),
        )
    } else {
        (ss, qs, align4(p + le_at(c, p + 2, 2) + 1))
    }
}

/// The first value of each queue.
pub open spec fn fronts(qs: Seq<Seq<RecordValue>>) -> Seq<RecordValue> {
    Seq::new(qs.len(), |i: int| qs[i][0])
}

/// The points read, in front of what reading further gives; nothing where that fails.
pub open spec fn prepend(
    pts: Seq<Seq<RecordValue>>,
    rest: Option<Seq<Seq<RecordValue>>>,
) -> Option<Seq<Seq<RecordValue>>> {
    match rest {
        Some(r) => Some(pts + r),
        None => None,
    }
}

/// Reading `k` points, in at most `fuel` steps, from queue readers whose streams, queues and
/// reader offset are these: where the queues hold a point, it is taken; otherwise the next
/// packet is read, and reading fails where that packet cannot be read.
pub open spec fn run(
    proto: Seq<Record>,
    r0: PagedReader,
    ss: Seq<(Seq<u8>, int)>,
    qs: Seq<Seq<RecordValue>>,
    p: int,
    k: nat,
    fuel: nat,
) -> Option<Seq<Seq<RecordValue>>>
    decreases fuel,
{
    if k == 0 {
        Some(Seq::empty())
    } else if fuel == 0 {
        None
    } else if qs.len() > 0 && min_len(qs, qs.len() as int) > 0 {
        prepend(seq![fronts(qs)], run(proto, r0, ss, popped(qs, 1), p, (k - 1) as nat, (fuel - 1) as nat))
    } else if packet_ok_at(r0, p, ss, proto.len() as int) && data_fits_at(r0, p, ss, proto) {
        let next = advanced_state(proto, r0, p, ss, qs);
        run(proto, r0, next.0, next.1, next.2, k, (fuel - 1) as nat)
    } else {
        None
    }
}

/// The points that reading `count` points from a queue reader and a paged reader gives: each
/// point is the first value of every queue, and the next packet is read whenever a queue is
/// empty; `None` where a packet on the way cannot be read. Each packet moves the reader on,
/// so `count` plus the file length bounds the steps.
pub open spec fn points_read(q: QueueReader, reader: PagedReader, count: nat) -> Option<Seq<Seq<RecordValue>>> {
    run(q.proto(), reader, stream_model(q), q.queues(), reader.pos(), count, count + reader.phys().len())
}

/// `packet_ok` is `packet_ok_at` at the reader's offset, for any reader over the same file.
proof fn lemma_packet_ok_at(reader: PagedReader, r0: PagedReader, q: QueueReader)
    requires
        reader.wf(),
        reader.phys() == r0.phys(),
        reader.page_size_spec() == r0.page_size_spec(),
        q.wf(),
    ensures
        packet_ok(reader, q.streams(), q.proto().len() as int) == packet_ok_at(
            r0,
            reader.pos(),
            stream_model(q),
            q.proto().len() as int,
        ),
        data_fits(reader, q.streams(), q.proto()) == data_fits_at(r0, reader.pos(), stream_model(q), q.proto()),
{
    let p = reader.pos();
    let c = reader.content();
    let n = q.proto().len() as int;
    let ss = stream_model(q);
    let len = le_at(c, p + 2, 2) + 1int;
    let sizes = packet_sizes(c, p, n);
    let base = p + 6 + 2 * n;
    assert(c == r0.content());
    lemma_can_read(reader, r0, 1);
    lemma_can_read(reader, r0, 4);
    lemma_can_read(reader, r0, 6);
    lemma_can_read(reader, r0, 16);
    assert(reader.peek(16) =~= window(c, p, 16));
    assert(reader.peek(4) =~= window(c, p, 4));
    assert(reader.peek(6) =~= window(c, p, 6));
    lemma_readable_same(reader, r0, p + 16, len - 16);
    lemma_readable_same(reader, r0, p + 4, len - 4);
    lemma_readable_same(reader, r0, p + 6, 2 * n);
    assert forall|i: int|
        #![trigger chunk_ok(reader, q.streams(), sizes, base, i)]
        #![trigger chunk_ok_at(r0, ss, sizes, base, i)]
        0 <= i < n implies chunk_ok(reader, q.streams(), sizes, base, i) == chunk_ok_at(r0, ss, sizes, base, i) by {
        lemma_readable_same(reader, r0, chunk_start(base, sizes, i), sizes[i] as int);
        assert(ss[i].0 == q.streams()[i].data());
    }
    assert((forall|i: int| 0 <= i < n ==> #[trigger] chunk_ok(reader, q.streams(), sizes, base, i)) == (forall|i: int|
        0 <= i < n ==> #[trigger] chunk_ok_at(r0, ss, sizes, base, i)));
    assert(align_ok(reader, chunk_start(base, sizes, n)) == align_ok(r0, chunk_start(base, sizes, n)));
    assert(align_ok(reader, p + len) == align_ok(r0, p + len));
    assert(reader.can_read(1) == readable_at(r0, p, 1));
    assert forall|i: int| 0 <= i < n implies #[trigger] stream_fits(
        q.proto()[i].data_type,
        q.streams()[i].data().skip(q.streams()[i].bit_offset() / 8) + packet_chunk(c, p, n, i),
        q.streams()[i].bit_offset() % 8,
    ) == stream_fits(q.proto()[i].data_type, mid_at(ss, c, p, n)[i].0, mid_at(ss, c, p, n)[i].1) by {}
}

/// `min_items` over streams is `min_items_at` over their models.
proof fn lemma_min_items_at(proto: Seq<Record>, ms: Seq<crate::bs_read::ByteStreamReadBuffer>, mm: Seq<(Seq<u8>, int)>, qs: Seq<Seq<RecordValue>>, k: int)
    requires
        forall|i: int| 0 <= i < k ==> (#[trigger] ms[i]).data() == mm[i].0 && ms[i].bit_offset() == mm[i].1,
    ensures
        min_items(proto, ms, qs, k) == min_items_at(proto, mm, qs, k),
    decreases k,
{
    if k > 0 {
        lemma_min_items_at(proto, ms, mm, qs, k - 1);
        assert(ms[k - 1].data() == mm[k - 1].0);
    }
}

/// Reads `count` points: takes the next point where the queues hold one and reads the next
/// packet into them where they do not. The result is `points_read`: each point is the first
/// value of every queue, and reading fails exactly where a packet on the way cannot be read.
pub fn read_points(q: &mut QueueReader, reader: &mut PagedReader, count: u64) -> (r: Result<Vec<Vec<RecordValue>>>)
    requires
        old(q).wf(),
        old(reader).wf(),
    ensures
        final(q).wf(),
        final(reader).wf(),
        final(reader).phys() == old(reader).phys(),
        final(reader).page_size_spec() == old(reader).page_size_spec(),
        final(q).proto() == old(q).proto(),
        r is Ok <==> points_read(*old(q), *old(reader), count as nat) is Some,
        r matches Ok(v) ==> points_read(*old(q), *old(reader), count as nat) == Some(
            Seq::new(v@.len(), |k: int| v@[k]@),
        ),
        r matches Ok(v) ==> v@.len() == count && forall|k: int| 0 <= k < v@.len() ==> (#[trigger] v@[k])@.len()
            == old(q).proto().len(),
        r matches Err(e) ==> e is Read || e is Invalid || e is Internal,
{
    let ghost r0 = *reader;
    let ghost proto = q.proto();
    let ghost n = proto.len() as int;
    let ghost all = points_read(*q, *reader, count as nat);
    let ghost mut fuel: nat = (count + reader.phys().len()) as nat;
    let mut points: Vec<Vec<RecordValue>> = Vec::new();
    while (points.len() as u64) < count
        invariant
            q.wf(),
            reader.wf(),
            reader.phys() == r0.phys(),
            reader.page_size_spec() == r0.page_size_spec(),
            q.proto() == proto,
            n == proto.len(),
            r0 == *old(reader),
            proto == old(q).proto(),
            all == points_read(*old(q), *old(reader), count as nat),
            points@.len() <= count,
            forall|k: int| 0 <= k < points@.len() ==> (#[trigger] points@[k])@.len() == n,
            fuel >= (count - points@.len()) + (reader.phys().len() - reader.pos()),
            all == prepend(
                Seq::new(points@.len(), |k: int| points@[k]@),
                run(proto, r0, stream_model(*q), q.queues(), reader.pos(), (count - points@.len()) as nat, fuel),
            ),
        decreases count - points@.len(), reader.phys().len() - reader.pos(),
    {
        let ghost pv = Seq::new(points@.len(), |k: int| points@[k]@);
        let ghost k = (count - points@.len()) as nat;
        let ghost ss = stream_model(*q);
        let ghost qs = q.queues();
        let ghost p = reader.pos();
        let ghost q0 = *q;
        let ghost rd0 = *reader;
        if q.available() == 0 {
            let ghost c = reader.content();
            proof {
                lemma_packet_ok_at(rd0, r0, q0);
                assert(c == r0.content());
            }
            match q.advance(reader) {
                Ok(()) => {},
                Err(e) => {
                    proof {
                        assert(run(proto, r0, ss, qs, p, k, fuel) == None::<Seq<Seq<RecordValue>>>);
                    }
                    return Err(e);
                },
            }
            proof {
                if c[p] == 1 {
                    lemma_chunk_start_grows(
                        p + 6 + 2 * n,
                        packet_sizes(c, p, n),
                        n,
                    );
                }
                assert(reader.pos() > p);
                let next = advanced_state(proto, r0, p, ss, qs);
                if c[p] == 1 {
                    let mid = choose|mid: Seq<crate::bs_read::ByteStreamReadBuffer>| {
                        &&& mid.len() == n
                        &&& forall|i: int| 0 <= i < n ==> {
                            let s = q0.streams()[i];
                            &&& (#[trigger] mid[i]).data() == s.data().skip(s.bit_offset() / 8) + packet_chunk(c, p, n, i)
                            &&& mid[i].bit_offset() == s.bit_offset() % 8
                        }
                        &&& forall|i: int| 0 <= i < n ==> {
                            let t = q0.proto()[i].data_type;
                            let m = min_items(q0.proto(), mid, q0.queues(), n);
                            &&& (#[trigger] q.queues()[i]) == parsed(t, mid[i].data(), mid[i].bit_offset(), q0.queues()[i], m)
                            &&& q.streams()[i].data() == mid[i].data()
                            &&& q.streams()[i].bit_offset() == parsed_offset(t, mid[i].data(), mid[i].bit_offset())
                        }
                    };
                    let mm = mid_at(ss, c, p, n);
                    assert forall|i: int| 0 <= i < n implies (#[trigger] mid[i]).data() == mm[i].0 && mid[i].bit_offset() == mm[i].1 by {}
                    lemma_min_items_at(proto, mid, mm, qs, n);
                    assert forall|i: int| 0 <= i < n implies #[trigger] stream_model(*q)[i] == next.0[i] by {
                        let _ = q.queues()[i];
                        assert(q.streams()[i].data() == mid[i].data());
                    }
                    assert(stream_model(*q) =~= next.0);
                    assert(q.queues() =~= next.1);
                } else {
                    assert(stream_model(*q) =~= next.0);
                }
                assert(run(proto, r0, ss, qs, p, k, fuel) == run(proto, r0, next.0, next.1, next.2, k, (fuel - 1) as nat));
                fuel = (fuel - 1) as nat;
            }
        } else {
            proof {
                assert forall|i: int| 0 <= i < qs.len() implies #[trigger] qs[i].len() > 0 by {
                    lemma_min_len_le(qs, qs.len() as int, i);
                }
            }
            let mut point: Vec<RecordValue> = Vec::new();
            match q.pop_point(&mut point) {
                Ok(()) => {},
                Err(e) => {
                    return Err(e);
                },
            }
            proof {
                assert(q.queues() =~= popped(qs, 1));
                assert(point@ =~= fronts(qs));
                assert(run(proto, r0, ss, qs, p, k, fuel) == prepend(
                    seq![fronts(qs)],
                    run(proto, r0, ss, popped(qs, 1), p, (k - 1) as nat, (fuel - 1) as nat),
                ));
                fuel = (fuel - 1) as nat;
            }
            points.push(point);
            proof {
                let pv2 = Seq::new(points@.len(), |k: int| points@[k]@);
                assert(pv2 =~= pv + seq![fronts(qs)]);
                assert(stream_model(*q) =~= ss);
                let rest = run(proto, r0, ss, popped(qs, 1), p, (k - 1) as nat, fuel);
                match rest {
                    Some(x) => {
                        assert(pv + (seq![fronts(qs)] + x) =~= pv2 + x);
                    },
                    None => {},
                }
            }
        }
    }
    proof {
        assert(Seq::new(points@.len(), |k: int| points@[k]@) + Seq::<Seq<RecordValue>>::empty() =~= Seq::new(
            points@.len(),
            |k: int| points@[k]@,
        ));
    }
    Ok(points)
}

} // verus!
