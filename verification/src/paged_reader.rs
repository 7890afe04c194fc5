use crate::crc32::{checksum, crc32_iscsi, u32_be, u32_to_be_bytes};
use crate::error::{Error, Result};
use vstd::prelude::*;

verus! {

/// Size of the checksum at the end of each page.
pub const CHECKSUM_SIZE: u64 = 4;

/// Position to seek to, relative to the start, the end or the current logical offset.
#[derive(Clone, Copy, Debug, PartialEq, Eq, Structural)]
pub enum SeekFrom {
    Start(u64),
    End(i64),
    Current(i64),
}

/// The payload bytes of page `p`: the page without its checksum.
pub open spec fn page_payload(phys: Seq<u8>, ps: int, p: int) -> Seq<u8> {
    phys.subrange(p * ps, p * ps + ps - 4)
}

/// Page `p` holds the big-endian CRC-32C checksum of its payload in its last four bytes.
pub open spec fn page_valid(phys: Seq<u8>, ps: int, p: int) -> bool {
    phys.subrange(p * ps + ps - 4, p * ps + ps) == u32_be(crc32_iscsi(page_payload(phys, ps, p)))
}

/// Every page of a file is valid.
pub open spec fn all_pages_valid(phys: Seq<u8>, ps: int) -> bool {
    forall|p: int| 0 <= p < (phys.len() as int) / ps ==> #[trigger] page_valid(phys, ps, p)
}

/// The logical content of a paged file: the payloads of all pages, one after the other.
pub open spec fn logical(phys: Seq<u8>, ps: int) -> Seq<u8> {
    Seq::new(
        (((phys.len() as int) / ps) * (ps - 4)) as nat,
        |i: int| phys[(i / (ps - 4)) * ps + i % (ps - 4)],
    )
}

/// Reads the logical content of a paged E57 file, checking the CRC of each page it touches.
pub struct PagedReader {
    page_size: u64,
    phy_file_size: u64,
    log_file_size: u64,
    pages: u64,
    reader: Vec<u8>,
    offset: u64,
    page_num: Option<u64>,
    page_buffer: Vec<u8>,
}

proof fn lemma_div_mod_unique(p: int, d: int, r: int)
    requires
        d > 0,
        p >= 0,
        0 <= r < d,
    ensures
        (p * d + r) / d == p,
        (p * d + r) % d == r,
{
    assert((p * d + r) / d == p && (p * d + r) % d == r) by (nonlinear_arith)
        requires
            d > 0,
            p >= 0,
            0 <= r < d,
    ;
}

proof fn lemma_in_page(x: int, d: int, page: int, r: int)
    requires
        d > 0,
        page >= 0,
        0 <= r < d,
        x == page * d + r,
    ensures
        x / d == page,
        x % d == r,
{
    lemma_div_mod_unique(page, d, r);
}

proof fn lemma_page_bounds(p: int, pages: int, ps: int)
    requires
        0 <= p < pages,
        ps > 4,
    ensures
        p * ps + ps <= pages * ps,
        p * (ps - 4) + (ps - 4) <= pages * (ps - 4),
        p * ps >= 0,
{
    assert(p * ps + ps <= pages * ps && p * (ps - 4) + (ps - 4) <= pages * (ps - 4) && p * ps >= 0)
        by (nonlinear_arith)
        requires
            0 <= p < pages,
            ps > 4,
    ;
}

impl PagedReader {
    /// The physical bytes of the file.
    pub closed spec fn phys(&self) -> Seq<u8> {
        self.reader@
    }

    /// The page size of the file.
    pub closed spec fn page_size_spec(&self) -> int {
        self.page_size as int
    }

    /// The current logical offset.
    pub closed spec fn pos(&self) -> int {
        self.offset as int
    }

    /// The internal fields agree with the file and the cached page is a valid page of it.
    pub closed spec fn consistent(&self) -> bool {
        &&& self.phy_file_size == self.reader@.len()
        &&& self.pages == (self.reader@.len() as int) / (self.page_size as int)
        &&& self.pages * self.page_size == self.reader@.len()
        &&& self.log_file_size == self.pages * (self.page_size - 4)
        &&& match self.page_num {
            Some(p) => {
                &&& p < self.pages
                &&& self.page_buffer@ == self.reader@.subrange(
                    p * self.page_size,
                    p * self.page_size + self.page_size,
                )
                &&& page_valid(self.reader@, self.page_size as int, p as int)
            },
            None => true,
        }
    }

    /// Well-formedness of the reader.
    pub open spec fn wf(&self) -> bool {
        let ps = self.page_size_spec();
        &&& ps > 4
        &&& self.phys().len() > 0
        &&& (self.phys().len() as int) % ps == 0
        &&& self.phys().len() + 8 <= u64::MAX
        &&& 0 <= self.pos() <= self.phys().len()
        &&& self.consistent()
    }

    /// Number of pages.
    pub open spec fn page_count(&self) -> int {
        (self.phys().len() as int) / self.page_size_spec()
    }

    /// The logical content of the file.
    pub open spec fn content(&self) -> Seq<u8> {
        logical(self.phys(), self.page_size_spec())
    }

    /// Logical byte `k` lies in a page with a valid checksum.
    pub open spec fn byte_valid(&self, k: int) -> bool {
        page_valid(self.phys(), self.page_size_spec(), k / (self.page_size_spec() - 4))
    }

    /// The next `n` logical bytes from the current offset.
    pub open spec fn peek(&self, n: int) -> Seq<u8> {
        Seq::new(n as nat, |j: int| self.content()[self.pos() + j])
    }

    /// The next `n` logical bytes exist and lie in pages with valid checksums.
    pub open spec fn can_read(&self, n: int) -> bool {
        n == 0 || (self.pos() + n <= self.content().len() && forall|k: int|
            self.pos() <= k < self.pos() + n ==> #[trigger] self.byte_valid(k))
    }

    /// Creates and initializes a paged reader over the physical bytes of a file.
    pub fn new(reader: Vec<u8>, page_size: u64) -> (r: Result<Self>)
        requires
            reader@.len() + 8 <= u64::MAX,
        ensures
            r is Ok <==> page_size > CHECKSUM_SIZE && reader@.len() > 0 && (reader@.len() as int)
                % (page_size as int) == 0,
            r matches Ok(pr) ==> pr.wf() && pr.phys() == reader@ && pr.page_size_spec() == page_size
                && pr.pos() == 0,
            r matches Err(e) ==> e is Read,
    {
        if page_size <= CHECKSUM_SIZE {
            return Err(Error::Read { desc: "Page size needs to be bigger than the checksum (4 bytes)".to_owned() });
        }
        let len = reader.len();
        let phy_file_size = len as u64;
        if phy_file_size == 0 {
            return Err(Error::Read { desc: "A file size of zero is not allowed".to_owned() });
        }
        if phy_file_size % page_size != 0 {
            return Err(Error::Read { desc: "File size is not a multiple of the page size".to_owned() });
        }
        let pages = phy_file_size / page_size;
        proof {
            assert(pages * (page_size - 4) <= pages * page_size) by (nonlinear_arith)
                requires
                    page_size > 4,
                    pages >= 0,
            ;
            assert(pages * page_size == phy_file_size) by (nonlinear_arith)
                requires
                    pages == phy_file_size / page_size,
                    phy_file_size % page_size == 0,
                    page_size > 0,
            ;
        }
        Ok(Self {
            reader,
            page_size,
            pages,
            phy_file_size,
            log_file_size: pages * (page_size - CHECKSUM_SIZE),
            page_buffer: Vec::new(),
            page_num: None,
            offset: 0,
        })
    }

    /// Seeks to a physical file offset relative to the start of the file.
    /// Returns the new logical offset.
    pub fn seek_physical(&mut self, offset: u64) -> (r: Result<u64>)
        requires
            old(self).wf(),
        ensures
            final(self).wf(),
            final(self).phys() == old(self).phys(),
            final(self).page_size_spec() == old(self).page_size_spec(),
            r is Ok <==> offset < old(self).phys().len(),
            r matches Ok(v) ==> v == final(self).pos() && v == offset - ((offset as int) / old(self).page_size_spec()) * 4,
            r is Err ==> final(self).pos() == old(self).pos(),
            r matches Err(e) ==> e is Read,
    {
        if offset >= self.phy_file_size {
            return Err(Error::Read { desc: "Offset is behind end of file".to_owned() });
        }
        let pages_before = offset / self.page_size;
        proof {
            assert(pages_before * 4 <= pages_before * self.page_size) by (nonlinear_arith)
                requires
                    self.page_size > 4,
                    pages_before >= 0,
            ;
            assert(pages_before * self.page_size <= offset) by (nonlinear_arith)
                requires
                    self.page_size > 0,
                    pages_before == offset / self.page_size,
            ;
        }
        self.offset = offset - pages_before * CHECKSUM_SIZE;
        Ok(self.offset)
    }

    fn read_page(&mut self, page: u64) -> (r: Result<()>)
        requires
            old(self).wf(),
        ensures
            final(self).wf(),
            final(self).phys() == old(self).phys(),
            final(self).page_size_spec() == old(self).page_size_spec(),
            final(self).pos() == old(self).pos(),
            r is Ok <==> page < old(self).page_count() && page_valid(
                old(self).phys(),
                old(self).page_size_spec(),
                page as int,
            ),
            r is Ok ==> final(self).page_num == Some(page),
            r matches Err(e) ==> e is Read,
    {
        if page >= self.pages {
            return Err(Error::Read { desc: "Page does not exist".to_owned() });
        }
        proof {
            lemma_page_bounds(page as int, self.pages as int, self.page_size as int);
        }
        let start64 = page * self.page_size;
        let data_size = self.page_size - CHECKSUM_SIZE;
        let len = self.reader.len();
        assert(start64 + self.page_size <= len);
        let start = start64 as usize;
        let end = (start64 + self.page_size) as usize;
        let mut buffer: Vec<u8> = Vec::new();
        let mut i = start;
        while i < end
            invariant
                start <= i <= end,
                end <= self.reader@.len(),
                buffer@ == self.reader@.subrange(start as int, i as int),
            decreases end - i,
        {
            buffer.push(self.reader[i]);
            i = i + 1;
            assert(buffer@ == self.reader@.subrange(start as int, i as int));
        }
        let ds = data_size as usize;
        self.page_num = None;
        self.page_buffer = buffer;
        let calculated = checksum(&self.page_buffer.as_slice()[0..ds]);
        let calculated_bytes = u32_to_be_bytes(calculated);
        proof {
            assert(self.page_buffer@.subrange(0, data_size as int) =~= page_payload(
                self.reader@,
                self.page_size as int,
                page as int,
            ));
        }
        let equal = self.page_buffer[ds] == calculated_bytes[0] && self.page_buffer[ds + 1]
            == calculated_bytes[1] && self.page_buffer[ds + 2] == calculated_bytes[2]
            && self.page_buffer[ds + 3] == calculated_bytes[3];
        proof {
            let expected = self.reader@.subrange(start + data_size, start + self.page_size as int);
            assert(expected =~= self.page_buffer@.subrange(data_size as int, self.page_size as int));
            if equal {
                assert(expected =~= calculated_bytes@);
            } else {
                assert(expected != calculated_bytes@) by {
                    if expected == calculated_bytes@ {
                        assert(expected[0] == calculated_bytes@[0]);
                        assert(expected[1] == calculated_bytes@[1]);
                        assert(expected[2] == calculated_bytes@[2]);
                        assert(expected[3] == calculated_bytes@[3]);
                    }
                }
            }
        }
        if !equal {
            return Err(Error::Read { desc: "Detected invalid checksum".to_owned() });
        }
        self.page_num = Some(page);
        Ok(())
    }

    /// Reads up to `max` bytes from the page at the current logical offset.
    /// Returns no bytes at the end of the file; fails if the page has an invalid checksum.
    pub fn read(&mut self, max: usize) -> (r: Result<Vec<u8>>)
        requires
            old(self).wf(),
        ensures
            final(self).wf(),
            final(self).phys() == old(self).phys(),
            final(self).page_size_spec() == old(self).page_size_spec(),
            ({
                let off = old(self).pos();
                let d = old(self).page_size_spec() - 4;
                let page = off / d;
                let n = if max < d - off % d {
                    max as int
                } else {
                    d - off % d
                };
                &&& page >= old(self).page_count() ==> (r matches Ok(v) && v@.len() == 0
                    && final(self).pos() == off)
                &&& page < old(self).page_count() ==> (r is Ok <==> page_valid(
                    old(self).phys(),
                    old(self).page_size_spec(),
                    page,
                ))
                &&& page < old(self).page_count() ==> (r matches Ok(v) ==> (v@ == old(self).content().subrange(off, off + n) && v@.len() == n && off + n <= old(self).content().len()
                    && final(self).pos() == off + n && (max >= 1 ==> n >= 1)))
                &&& r is Err ==> final(self).pos() == off
            }),
            r matches Err(e) ==> e is Read,
    {
        let d = self.page_size - CHECKSUM_SIZE;
        let page = self.offset / d;
        if page >= self.pages {
            return Ok(Vec::new());
        }
        let cached = match self.page_num {
            Some(p) => p == page,
            None => false,
        };
        if !cached {
            match self.read_page(page) {
                Ok(()) => {},
                Err(e) => {
                    return Err(e);
                },
            }
        }
        let page_offset = self.offset % d;
        let readable = d - page_offset;
        let read_size: u64 = if (max as u64) < readable {
            max as u64
        } else {
            readable
        };
        let ghost off = self.offset as int;
        let ghost ps = self.page_size as int;
        proof {
            lemma_page_bounds(page as int, self.pages as int, ps);
            let dd = d as int;
            assert(off == page * dd + page_offset) by (nonlinear_arith)
                requires
                    dd > 0,
                    page == off / dd,
                    page_offset == off % dd,
            ;
        }
        let blen = self.page_buffer.len();
        assert(page_offset + read_size <= blen);
        let start = page_offset as usize;
        let end = (page_offset + read_size) as usize;
        let mut out: Vec<u8> = Vec::new();
        let mut i = start;
        while i < end
            invariant
                start <= i <= end,
                start == page_offset,
                end == page_offset + read_size,
                page_offset + read_size <= d,
                d == ps - 4,
                ps == self.page_size,
                page < self.pages,
                (self.reader@.len() as int) / ps == self.pages,
                self.page_buffer@ == self.reader@.subrange(page * ps, page * ps + ps),
                self.pages * ps == self.reader@.len(),
                off == page * d + page_offset,
                out@.len() == i - start,
                forall|j: int| 0 <= j < i - start ==> out@[j] == logical(self.reader@, ps)[off + j],
            decreases end - i,
        {
            let ghost j = (i - start) as int;
            proof {
                lemma_in_page(off + j, ps - 4, page as int, page_offset + j);
                lemma_page_bounds(page as int, self.pages as int, ps);
                assert(off + j < self.pages * d) by (nonlinear_arith)
                    requires
                        off == page * d + page_offset,
                        page_offset + j < d,
                        page < self.pages,
                        d > 0,
                ;
            }
            out.push(self.page_buffer[i]);
            i = i + 1;
            proof {
                assert((self.reader@.len() as int) / ps == self.pages);
                assert(off + j < logical(self.reader@, ps).len());
                assert(logical(self.reader@, ps)[off + j] == self.reader@[page * ps + page_offset + j]);
            }
        }
        self.offset = self.offset + read_size;
        proof {
            assert(out@ =~= logical(self.reader@, ps).subrange(off, off + read_size));
            assert(off + read_size <= self.pages * d && self.pages * d <= self.pages * ps)
                by (nonlinear_arith)
                requires
                    off == page * d + page_offset,
                    page_offset + read_size <= d,
                    page < self.pages,
                    d == ps - 4,
                    ps > 4,
            ;
        }
        Ok(out)
    }

    /// Reads exactly `n` bytes from the current logical offset.
    /// Fails if the file ends before or a touched page has an invalid checksum.
    pub fn read_exact(&mut self, n: usize) -> (r: Result<Vec<u8>>)
        requires
            old(self).wf(),
        ensures
            final(self).wf(),
            final(self).phys() == old(self).phys(),
            final(self).page_size_spec() == old(self).page_size_spec(),
            r is Ok <==> old(self).can_read(n as int),
            r matches Ok(v) ==> v@ == old(self).peek(n as int),
            r matches Ok(v) ==> (v@.len() == n && final(self).pos() == old(self).pos() + n
                && forall|j: int| 0 <= j < n ==> #[trigger] v@[j] == old(self).content()[old(self).pos() + j]),
            r matches Err(e) ==> e is Read,
    {
        let ghost off0 = self.offset as int;
        let ghost ps = self.page_size as int;
        let ghost d = ps - 4;
        let mut out: Vec<u8> = Vec::new();
        while out.len() < n
            invariant
                self.wf(),
                self.phys() == old(self).phys(),
                self.page_size_spec() == ps,
                old(self).page_size_spec() == ps,
                old(self).pos() == off0,
                d == ps - 4,
                self.pos() == off0 + out@.len(),
                out@.len() <= n,
                out@.len() > 0 ==> self.pos() <= self.content().len(),
                forall|j: int| 0 <= j < out@.len() ==> #[trigger] out@[j] == self.content()[off0 + j],
                forall|k: int| off0 <= k < self.pos() ==> #[trigger] self.byte_valid(k),
            decreases n - out@.len(),
        {
            let ghost pos = self.pos();
            let ghost snapshot = *self;
            let chunk = match self.read(n - out.len()) {
                Ok(c) => c,
                Err(e) => {
                    proof {
                        assert(!old(self).byte_valid(pos));
                    }
                    return Err(e);
                },
            };
            if chunk.len() == 0 {
                proof {
                    assert(pos >= self.page_count() * d) by (nonlinear_arith)
                        requires
                            pos / d >= self.page_count(),
                            d > 0,
                            pos >= 0,
                    ;
                }
                return Err(Error::Read { desc: "Failed to fill whole buffer".to_owned() });
            }
            let ghost before = out@;
            let mut i: usize = 0;
            while i < chunk.len()
                invariant
                    i <= chunk@.len(),
                    out@ == before + chunk@.subrange(0, i as int),
                decreases chunk@.len() - i,
            {
                out.push(chunk[i]);
                i = i + 1;
                assert(out@ == before + chunk@.subrange(0, i as int));
            }
            proof {
                assert(chunk@.subrange(0, chunk@.len() as int) == chunk@);
                assert forall|j: int| 0 <= j < out@.len() implies #[trigger] out@[j] == self.content()[off0
                    + j] by {
                    if j >= before.len() {
                        assert(out@[j] == chunk@[j - before.len()]);
                    }
                }
                assert forall|k: int| off0 <= k < self.pos() implies #[trigger] self.byte_valid(k) by {
                    if k >= pos {
                        let page = pos / d;
                        assert(pos == page * d + pos % d) by (nonlinear_arith)
                            requires
                                d > 0,
                                page == pos / d,
                                pos >= 0,
                        ;
                        lemma_in_page(k, d, page, pos % d + (k - pos));
                    } else {
                        assert(snapshot.byte_valid(k));
                    }
                }
            }
        }
        proof {
            assert(self.content() == old(self).content());
            assert forall|k: int| old(self).pos() <= k < old(self).pos() + n implies #[trigger] old(self).byte_valid(k) by {
                assert(self.byte_valid(k));
            }
            assert(out@ =~= old(self).peek(n as int));
        }
        Ok(out)
    }

    /// The logical offset that a seek targets.
    pub open spec fn seek_target(&self, pos: SeekFrom) -> int {
        match pos {
            SeekFrom::Start(p) => p as int,
            SeekFrom::End(p) => self.content().len() + p,
            SeekFrom::Current(p) => self.pos() + p,
        }
    }

    /// Seeks to a logical offset; fails for offsets before the start or after the end.
    pub fn seek(&mut self, pos: SeekFrom) -> (r: Result<u64>)
        requires
            old(self).wf(),
        ensures
            final(self).wf(),
            final(self).phys() == old(self).phys(),
            final(self).page_size_spec() == old(self).page_size_spec(),
            r is Ok <==> 0 <= old(self).seek_target(pos) <= old(self).content().len(),
            r matches Ok(v) ==> (v == old(self).seek_target(pos) && final(self).pos() == v),
            r is Err ==> final(self).pos() == old(self).pos(),
            r matches Err(e) ==> e is Read,
    {
        proof {
            lemma_log_size(self.pages as int, self.page_size as int);
        }
        let new_offset: i128 = match pos {
            SeekFrom::Start(p) => p as i128,
            SeekFrom::End(p) => self.log_file_size as i128 + p as i128,
            SeekFrom::Current(p) => self.offset as i128 + p as i128,
        };
        if new_offset < 0 || new_offset > self.log_file_size as i128 {
            return Err(Error::Read { desc: "Detected invalid offset after end of file".to_owned() });
        }
        self.offset = new_offset as u64;
        Ok(self.offset)
    }

    /// Skips to the next 4-byte-aligned logical offset, if needed.
    /// Returns the new logical offset.
    pub fn align(&mut self) -> (r: Result<u64>)
        requires
            old(self).wf(),
        ensures
            final(self).wf(),
            final(self).phys() == old(self).phys(),
            final(self).page_size_spec() == old(self).page_size_spec(),
            ({
                let p = old(self).pos();
                let target = if p % 4 == 0 {
                    p
                } else {
                    p + 4 - p % 4
                };
                &&& r is Ok <==> (p % 4 == 0 || target <= old(self).content().len())
                &&& r matches Ok(v) ==> (v == target && final(self).pos() == target)
                &&& r is Err ==> final(self).pos() == p
            }),
            r matches Err(e) ==> e is Read,
    {
        proof {
            lemma_log_size(self.pages as int, self.page_size as int);
        }
        let off_alignment = self.offset % 4;
        if off_alignment != 0 {
            let skip = 4 - off_alignment;
            if self.offset + skip > self.log_file_size {
                return Err(Error::Read { desc: "Tried to move behind end of file".to_owned() });
            }
            self.offset = self.offset + skip;
        }
        Ok(self.offset)
    }

    /// The logical size of the file: the payload bytes of all its pages.
    pub fn logical_size(&self) -> (r: u64)
        requires
            self.wf(),
        ensures
            r == self.content().len(),
    {
        proof {
            lemma_log_size(self.pages as int, self.page_size as int);
        }
        self.log_file_size
    }

    /// The physical size of the file.
    pub fn phys_len(&self) -> (r: usize)
        ensures
            r == self.phys().len(),
    {
        self.reader.len()
    }

    /// The current logical offset.
    pub fn position(&self) -> (r: u64)
        ensures
            r == self.pos(),
    {
        self.offset
    }
}

proof fn lemma_log_size(pages: int, ps: int)
    requires
        pages >= 0,
        ps > 4,
    ensures
        pages * (ps - 4) <= pages * ps,
        ((pages * ps) / ps) * (ps - 4) == pages * (ps - 4),
{
    assert(pages * (ps - 4) <= pages * ps && ((pages * ps) / ps) * (ps - 4) == pages * (ps - 4))
        by (nonlinear_arith)
        requires
            pages >= 0,
            ps > 4,
    ;
}

} // verus!
