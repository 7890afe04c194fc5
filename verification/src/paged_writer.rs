use crate::crc32::{checksum, crc32_iscsi, u32_be, u32_to_be_bytes};
use crate::error::{Error, Result};
use crate::paged_reader::{all_pages_valid, logical, page_payload, page_valid, PagedReader};
use vstd::prelude::*;

verus! {

/// Size of the pages of written files.
pub const PAGE_SIZE: usize = 1024;

/// Size of the checksum at the end of each page.
pub const CRC_SIZE: usize = 4;

/// Number of payload bytes in each page.
pub const PAGE_PAYLOAD_SIZE: usize = 1020;

/// `file` with `data` written at `at`, extended where `data` reaches past its end.
pub open spec fn written_at(file: Seq<u8>, at: int, data: Seq<u8>) -> Seq<u8> {
    let len = if at + data.len() > file.len() {
        at + data.len()
    } else {
        file.len() as int
    };
    Seq::new(len as nat, |i: int| if at <= i < at + data.len() { data[i - at] } else { file[i] })
}

/// The page that starts at `at`: the bytes of `file` there, zero where the file ends.
pub open spec fn populated(file: Seq<u8>, at: int) -> Seq<u8> {
    Seq::new(1024, |i: int| if at + i < file.len() { file[at + i] } else { 0u8 })
}

/// A page buffer sealed for writing: its payload followed by the big-endian CRC-32C of it.
pub open spec fn sealed(page: Seq<u8>) -> Seq<u8> {
    page.subrange(0, 1020) + u32_be(crc32_iscsi(page.subrange(0, 1020)))
}

/// `page` with `data` copied into it at `at`.
pub open spec fn filled(page: Seq<u8>, at: int, data: Seq<u8>) -> Seq<u8> {
    Seq::new(page.len(), |i: int| if at <= i < at + data.len() { data[i - at] } else { page[i] })
}

/// `s` extended with zeros up to the next multiple of the page payload size.
pub open spec fn padded(s: Seq<u8>) -> Seq<u8> {
    let r = s.len() % 1020;
    if r == 0 {
        s
    } else {
        s + Seq::new((1020 - r) as nat, |i: int| 0u8)
    }
}

/// Writing a sealed page at a page boundary of a file made of valid pages keeps every page
/// valid, and places the payload of the page in the logical content at the page's position.
proof fn lemma_write_sealed(file: Seq<u8>, c: int, page: Seq<u8>)
    requires
        file.len() % 1024 == 0,
        c % 1024 == 0,
        0 <= c <= file.len(),
        page.len() == 1024,
        all_pages_valid(file, 1024),
    ensures
        written_at(file, c, sealed(page)).len() % 1024 == 0,
        c == file.len() ==> written_at(file, c, sealed(page)).len() == file.len() + 1024,
        c < file.len() ==> written_at(file, c, sealed(page)).len() == file.len(),
        all_pages_valid(written_at(file, c, sealed(page)), 1024),
        logical(written_at(file, c, sealed(page)), 1024) == written_at(
            logical(file, 1024),
            (c / 1024) * 1020,
            page.subrange(0, 1020),
        ),
{
    let s = sealed(page);
    let f2 = written_at(file, c, s);
    let q = c / 1024;
    assert(c == q * 1024);
    assert(s.len() == 1024);
    if c < file.len() {
        assert(c + 1024 <= file.len());
    }
    assert(f2.len() % 1024 == 0);
    assert forall|p: int| 0 <= p < (f2.len() as int) / 1024 implies #[trigger] page_valid(f2, 1024, p) by {
        if p == q {
            assert(page_payload(f2, 1024, p) =~= page.subrange(0, 1020));
            assert(f2.subrange(p * 1024 + 1020, p * 1024 + 1024) =~= s.subrange(1020, 1024));
            assert(s.subrange(1020, 1024) =~= u32_be(crc32_iscsi(page.subrange(0, 1020))));
        } else {
            assert(p < (file.len() as int) / 1024);
            assert(p * 1024 + 1024 <= c || p * 1024 >= c + 1024);
            assert(page_valid(file, 1024, p));
            assert(page_payload(f2, 1024, p) =~= page_payload(file, 1024, p));
            assert(f2.subrange(p * 1024 + 1020, p * 1024 + 1024) =~= file.subrange(
                p * 1024 + 1020,
                p * 1024 + 1024,
            ));
        }
    }
    let l1 = logical(file, 1024);
    let l2 = logical(f2, 1024);
    let w = written_at(l1, q * 1020, page.subrange(0, 1020));
    assert(l1.len() == (file.len() as int / 1024) * 1020);
    assert(l2.len() == w.len());
    assert forall|i: int| 0 <= i < l2.len() implies #[trigger] l2[i] == w[i] by {
        let k = i / 1020;
        let r = i % 1020;
        assert(i == k * 1020 + r);
        let j = k * 1024 + r;
        assert(l2[i] == f2[j]);
        if k == q {
            assert(c <= j < c + 1024);
            assert(f2[j] == s[r]);
        } else {
            assert(k < q || k > q);
            assert(j < c || j >= c + 1024);
            assert(k < (file.len() as int) / 1024);
            assert(l1[i] == file[j]);
        }
    }
    assert(l2 =~= w);
}

/// A page sealed from the bytes of a valid page of a file leaves the file as it is when written back.
proof fn lemma_rewrite_valid_page(file: Seq<u8>, c: int, page: Seq<u8>)
    requires
        file.len() % 1024 == 0,
        c % 1024 == 0,
        0 <= c < file.len(),
        page.len() == 1024,
        all_pages_valid(file, 1024),
        forall|j: int| 0 <= j < 1020 ==> #[trigger] page[j] == file[c + j],
    ensures
        written_at(file, c, sealed(page)) == file,
{
    let q = c / 1024;
    assert(c == q * 1024);
    assert(c + 1024 <= file.len());
    assert(q < (file.len() as int) / 1024);
    assert(page_valid(file, 1024, q));
    assert(page.subrange(0, 1020) =~= page_payload(file, 1024, q));
    let s = sealed(page);
    assert forall|j: int| 0 <= j < 1024 implies #[trigger] s[j] == file[c + j] by {
        if j >= 1020 {
            assert(s[j] == file.subrange(c + 1020, c + 1024)[j - 1020]);
        }
    }
    assert(written_at(file, c, s) =~= file);
}

/// Writing the same bytes twice at one place is writing them once.
proof fn lemma_written_at_twice(file: Seq<u8>, at: int, data: Seq<u8>)
    requires
        0 <= at <= file.len(),
    ensures
        written_at(written_at(file, at, data), at, data) == written_at(file, at, data),
{
    assert(written_at(written_at(file, at, data), at, data) =~= written_at(file, at, data));
}

/// Writing `data` at `off` into a page whose payload `pay0` stands at `base` of the logical
/// content `l` is writing `data` at `base + off` into the content, padded to whole pages.
proof fn lemma_splice(l: Seq<u8>, c: Seq<u8>, base: int, pay0: Seq<u8>, off: int, data: Seq<u8>)
    requires
        l.len() % 1020 == 0,
        base % 1020 == 0,
        0 <= base <= l.len(),
        pay0.len() == 1020,
        0 <= off,
        0 < data.len(),
        off + data.len() <= 1020,
        c == written_at(l, base, pay0) || (c == l && base == l.len() && off == 0 && forall|j: int|
            0 <= j < 1020 ==> #[trigger] pay0[j] == 0),
    ensures
        written_at(l, base, filled(pay0, off, data)) == padded(written_at(c, base + off, data)),
        c.len() % 1020 == 0,
        base + off <= c.len(),
{
    let lhs = written_at(l, base, filled(pay0, off, data));
    let w = written_at(c, base + off, data);
    let k = base / 1020;
    assert(base == k * 1020);
    if c == written_at(l, base, pay0) {
        assert(c.len() % 1020 == 0);
        assert(w.len() == c.len());
        assert(padded(w) == w);
        assert(lhs =~= w);
    } else {
        assert(c.len() == base);
        assert(w.len() == base + data.len());
        if data.len() == 1020 {
            assert(w.len() % 1020 == 0);
            assert(padded(w) == w);
            assert(lhs =~= w);
        } else {
            assert(w.len() % 1020 == data.len());
            let pw = padded(w);
            assert(pw.len() == base + 1020);
            assert forall|i: int| 0 <= i < lhs.len() implies #[trigger] lhs[i] == pw[i] by {
                if i >= w.len() {
                    assert(pw[i] == 0);
                    assert(lhs[i] == pay0[i - base]);
                } else {
                    assert(pw[i] == w[i]);
                }
            }
            assert(lhs =~= pw);
        }
    }
}

/// The length of `padded(s)` for a sequence of length `n`.
spec fn pad_len(n: int) -> int {
    if n % 1020 == 0 {
        n
    } else {
        n + 1020 - n % 1020
    }
}

/// A length between `x` and the padded length of `x` pads to the same length.
proof fn lemma_pad_len_between(x: int, y: int)
    requires
        0 <= x <= y <= pad_len(x),
    ensures
        pad_len(y) == pad_len(x),
        pad_len(x) % 1020 == 0,
        x <= pad_len(x),
{
    let k = x / 1020;
    assert(x == k * 1020 + x % 1020);
    if x % 1020 != 0 {
        assert(pad_len(x) == (k + 1) * 1020);
        if y < pad_len(x) {
            assert(y / 1020 == k);
            assert(y % 1020 == y - k * 1020);
        } else {
            assert(y % 1020 == 0);
        }
    }
}

/// Two writes one after the other, each padded to whole pages, are one padded write of both.
pub(crate) proof fn lemma_padded_written_twice(c: Seq<u8>, p: int, a: Seq<u8>, b: Seq<u8>)
    requires
        c.len() % 1020 == 0,
        0 <= p <= c.len(),
    ensures
        padded(written_at(padded(written_at(c, p, a)), p + a.len(), b)) == padded(written_at(c, p, a + b)),
{
    let x = written_at(c, p, a);
    let y = padded(x);
    let z = written_at(y, p + a.len(), b);
    let r = written_at(c, p, a + b);
    let pz = padded(z);
    let pr = padded(r);
    let big = p + a.len() + b.len();
    assert(y.len() == pad_len(x.len() as int));
    assert(pz.len() == pad_len(z.len() as int));
    assert(pr.len() == pad_len(r.len() as int));
    lemma_pad_len_between(x.len() as int, x.len() as int);
    if big >= y.len() {
        assert(z.len() == big);
        assert(r.len() == big);
    } else {
        assert(z.len() == y.len());
        lemma_pad_len_between(x.len() as int, r.len() as int);
        lemma_pad_len_between(y.len() as int, y.len() as int);
    }
    assert(pz.len() == pr.len());
    assert forall|i: int| 0 <= i < pz.len() implies #[trigger] pz[i] == pr[i] by {
        if i < z.len() && i >= big && i >= c.len() && i >= p + a.len() {
            assert(z[i] == y[i]);
        }
    }
    assert(pz =~= pr);
}

/// Writes data in pages of 1024 bytes, each ending with the CRC-32C checksum of its payload,
/// into an in-memory file.
pub struct PagedWriter {
    writer: Vec<u8>,
    cursor: usize,
    offset: usize,
    page_buffer: Vec<u8>,
}

/// Writes `data` into `file` at `at`, extending the file where needed.
fn write_bytes_at(file: &mut Vec<u8>, at: usize, data: &[u8])
    requires
        at <= old(file)@.len(),
    ensures
        final(file)@ == written_at(old(file)@, at as int, data@),
{
    let mut i: usize = 0;
    while i < data.len()
        invariant
            i <= data@.len(),
            at <= old(file)@.len(),
            file@ == written_at(old(file)@, at as int, data@.subrange(0, i as int)),
        decreases data@.len() - i,
    {
        let len = file.len();
        if at + i < len {
            file.set(at + i, data[i]);
        } else {
            file.push(data[i]);
        }
        i = i + 1;
        assert(file@ =~= written_at(old(file)@, at as int, data@.subrange(0, i as int)));
    }
    assert(data@.subrange(0, data@.len() as int) == data@);
}

impl PagedWriter {
    /// The bytes written to the underlying file so far, without the current page.
    pub closed spec fn file(&self) -> Seq<u8> {
        self.writer@
    }

    /// Physical offset of the start of the current page.
    pub closed spec fn page_start(&self) -> int {
        self.cursor as int
    }

    /// Offset of the next byte inside the current page.
    pub closed spec fn page_offset(&self) -> int {
        self.offset as int
    }

    /// The current page.
    pub closed spec fn page(&self) -> Seq<u8> {
        self.page_buffer@
    }

    /// Well-formedness of the writer: the file is made of whole pages with valid checksums,
    /// the current page starts at a page boundary inside or at the end of the file, and the
    /// bytes of the current page from the offset on are those of the file there.
    pub open spec fn wf(&self) -> bool {
        &&& 0 <= self.page_start() <= self.file().len()
        &&& self.page_start() % 1024 == 0
        &&& self.file().len() % 1024 == 0
        &&& 0 <= self.page_offset() < 1020
        &&& self.page().len() == 1024
        &&& self.file().len() + 1024 <= usize::MAX
        &&& all_pages_valid(self.file(), 1024)
        &&& forall|j: int|
            self.page_offset() <= j < 1020 ==> #[trigger] self.page()[j] == populated(
                self.file(),
                self.page_start(),
            )[j]
    }

    /// The file can take one more page without its length reaching the machine limit.
    pub open spec fn has_room(&self) -> bool {
        self.file().len() + 2048 <= usize::MAX
    }

    /// The file as it is once the current page is written out.
    pub open spec fn flushed(&self) -> Seq<u8> {
        if self.page_offset() > 0 {
            written_at(self.file(), self.page_start(), sealed(self.page()))
        } else {
            self.file()
        }
    }

    /// The logical content of the written file: the payloads of its pages once flushed.
    pub open spec fn content(&self) -> Seq<u8> {
        logical(self.flushed(), 1024)
    }

    /// This writer is `before` after `data` was written at its logical position: the content
    /// holds `data` there, padded with zeros to whole pages, and the position is behind `data`.
    pub open spec fn written_after(&self, before: PagedWriter, data: Seq<u8>) -> bool {
        &&& self.content() == padded(written_at(before.content(), before.logical_position(), data))
        &&& self.logical_position() == before.logical_position() + data.len()
    }

    /// The file can take `n` more bytes of data with room to spare below the machine limit.
    pub open spec fn can_take(&self, n: int) -> bool {
        self.file().len() + 2 * n + 4096 <= usize::MAX
    }

    /// The logical offset at which the next byte is written.
    pub open spec fn logical_position(&self) -> int {
        (self.page_start() / 1024) * 1020 + self.page_offset()
    }

    /// Creates a paged writer over an empty file; fails if the file is not empty.
    pub fn new(writer: Vec<u8>) -> (r: Result<Self>)
        ensures
            r is Ok <==> writer@.len() == 0,
            r matches Ok(w) ==> w.wf() && w.file() == writer@ && w.page_start() == 0 && w.page_offset()
                == 0 && w.page() == populated(writer@, 0),
            r matches Ok(w) ==> w.content().len() == 0 && w.logical_position() == 0,
            r matches Err(e) ==> e is Write,
    {
        if writer.len() != 0 {
            return Err(Error::Write { desc: "Supplied writer is not empty".to_owned() });
        }
        let mut w = Self { writer, cursor: 0, offset: 0, page_buffer: Vec::new() };
        w.populate_existing_data();
        Ok(w)
    }

    /// Fills the page buffer with the existing bytes of the page at the cursor, zero beyond
    /// the end of the file.
    fn populate_existing_data(&mut self)
        requires
            old(self).cursor <= old(self).writer@.len(),
        ensures
            final(self).writer == old(self).writer,
            final(self).cursor == old(self).cursor,
            final(self).offset == old(self).offset,
            final(self).page_buffer@ == populated(old(self).writer@, old(self).cursor as int),
    {
        let len = self.writer.len();
        let mut buffer: Vec<u8> = Vec::new();
        let mut i: usize = 0;
        while i < PAGE_SIZE
            invariant
                i <= 1024,
                len == self.writer@.len(),
                self.cursor <= len,
                buffer@.len() == i,
                forall|k: int| 0 <= k < i ==> buffer@[k] == populated(self.writer@, self.cursor as int)[k],
            decreases 1024 - i,
        {
            if i < len - self.cursor {
                buffer.push(self.writer[self.cursor + i]);
            } else {
                buffer.push(0);
            }
            i = i + 1;
        }
        assert(buffer@ =~= populated(self.writer@, self.cursor as int));
        self.page_buffer = buffer;
    }

    /// The current physical offset in the file.
    pub fn physical_position(&self) -> (r: Result<u64>)
        requires
            self.wf(),
        ensures
            r matches Ok(v) && v == self.page_start() + self.page_offset(),
    {
        Ok((self.cursor + self.offset) as u64)
    }

    /// Writes the sealed page buffer at the cursor.
    fn write_page(&mut self)
        requires
            old(self).cursor <= old(self).writer@.len(),
            old(self).cursor % 1024 == 0,
            old(self).writer@.len() % 1024 == 0,
            old(self).page_buffer@.len() == 1024,
            all_pages_valid(old(self).writer@, 1024),
            old(self).writer@.len() + 2048 <= usize::MAX,
        ensures
            final(self).writer@ == written_at(old(self).writer@, old(self).cursor as int, sealed(old(self).page_buffer@)),
            final(self).writer@.len() + 1024 <= usize::MAX,
            final(self).writer@.len() % 1024 == 0,
            old(self).cursor + 1024 <= final(self).writer@.len(),
            all_pages_valid(final(self).writer@, 1024),
            final(self).cursor == old(self).cursor,
            final(self).offset == old(self).offset,
            final(self).page_buffer == old(self).page_buffer,
    {
        let crc = checksum(&self.page_buffer.as_slice()[0..PAGE_PAYLOAD_SIZE]);
        let mut page: Vec<u8> = Vec::new();
        let mut i: usize = 0;
        while i < PAGE_PAYLOAD_SIZE
            invariant
                i <= 1020,
                self.page_buffer@.len() == 1024,
                page@ == self.page_buffer@.subrange(0, i as int),
            decreases 1020 - i,
        {
            page.push(self.page_buffer[i]);
            i = i + 1;
            assert(page@ == self.page_buffer@.subrange(0, i as int));
        }
        page.append(&mut u32_to_be_bytes(crc));
        assert(page@ =~= sealed(self.page_buffer@));
        proof {
            lemma_write_sealed(self.writer@, self.cursor as int, self.page_buffer@);
        }
        write_bytes_at(&mut self.writer, self.cursor, page.as_slice());
    }

    /// Writes the current page with its checksum, if anything was written into it.
    /// Fails, changing nothing, if the file could not take another page.
    pub fn flush(&mut self) -> (r: Result<()>)
        requires
            old(self).wf(),
        ensures
            final(self).wf(),
            r is Ok <==> (old(self).page_offset() == 0 || old(self).has_room()),
            r is Ok ==> final(self).file() == old(self).flushed(),
            r is Err ==> final(self).file() == old(self).file(),
            final(self).flushed() == old(self).flushed(),
            final(self).page_start() == old(self).page_start(),
            final(self).page_offset() == old(self).page_offset(),
            final(self).page() == old(self).page(),
            r matches Err(e) ==> e is Write,
    {
        if self.offset > 0 {
            if self.writer.len() > usize::MAX - 2048 {
                return Err(Error::Write { desc: "File size limit reached".to_owned() });
            }
            self.write_page();
            proof {
                lemma_written_at_twice(old(self).writer@, self.cursor as int, sealed(self.page_buffer@));
                assert forall|j: int| self.offset <= j < 1020 implies #[trigger] self.page_buffer@[j]
                    == populated(self.writer@, self.cursor as int)[j] by {
                    assert(populated(self.writer@, self.cursor as int)[j] == sealed(self.page_buffer@)[j]);
                }
            }
        }
        Ok(())
    }

    /// The logical content as the fields give it: the file's payloads, with the payload of the
    /// current page at its place where that page is in the file or has been written to.
    pub(crate) proof fn lemma_content(&self)
        requires
            self.wf(),
        ensures
            all_pages_valid(self.flushed(), 1024),
            self.flushed().len() % 1024 == 0,
            self.content().len() % 1020 == 0,
            self.logical_position() <= self.content().len(),
            self.content() == written_at(
                logical(self.file(), 1024),
                (self.page_start() / 1024) * 1020,
                self.page().subrange(0, 1020),
            ) || (self.content() == logical(self.file(), 1024) && self.page_start() == self.file().len()
                && self.page_offset() == 0 && forall|j: int|
                0 <= j < 1020 ==> #[trigger] self.page().subrange(0, 1020)[j] == 0),
            logical(self.file(), 1024).len() == (self.file().len() / 1024) * 1020,
    {
        let f = self.file();
        let c = self.page_start();
        let pg = self.page();
        lemma_write_sealed(f, c, pg);
        if c < f.len() {
            assert(c + 1024 <= f.len());
        }
        if self.page_offset() == 0 {
            if c < f.len() {
                assert forall|j: int| 0 <= j < 1020 implies #[trigger] pg[j] == f[c + j] by {
                    assert(pg[j] == populated(f, c)[j]);
                }
                lemma_rewrite_valid_page(f, c, pg);
            } else {
                assert forall|j: int| 0 <= j < 1020 implies #[trigger] pg.subrange(0, 1020)[j] == 0 by {
                    assert(pg[j] == populated(f, c)[j]);
                }
            }
        }
    }

    /// Writes as many bytes of `buf` as fit into the current page and returns their number.
    /// When the page is full it is written with its checksum and the next page begins.
    /// Fails, changing nothing, if the file could not take the full page.
    pub fn write(&mut self, buf: &[u8]) -> (r: Result<usize>)
        requires
            old(self).wf(),
        ensures
            final(self).wf(),
            ({
                let off = old(self).page_offset();
                let n = if buf@.len() < 1020 - off {
                    buf@.len() as int
                } else {
                    1020 - off
                };
                let data = buf@.subrange(0, n);
                let page1 = filled(old(self).page(), off, data);
                &&& r is Ok <==> (off + n < 1020 || old(self).has_room())
                &&& r matches Ok(k) ==> k == n
                &&& (r is Ok && off + n < 1020) ==> (final(self).file() == old(self).file()
                    && final(self).page_start() == old(self).page_start() && final(self).page_offset()
                    == off + n && final(self).page() == page1)
                &&& (r is Ok && off + n == 1020) ==> (final(self).file() == written_at(
                    old(self).file(),
                    old(self).page_start(),
                    sealed(page1),
                ) && final(self).page_start() == old(self).page_start() + 1024
                    && final(self).page_offset() == 0 && final(self).page() == populated(
                    final(self).file(),
                    final(self).page_start(),
                ))
                &&& r is Ok ==> (final(self).content() == padded(
                    written_at(old(self).content(), old(self).logical_position(), data),
                ) && final(self).logical_position() == old(self).logical_position() + n)
                &&& r is Err ==> *final(self) == *old(self)
            }),
            r matches Err(e) ==> e is Write,
    {
        let remaining = PAGE_PAYLOAD_SIZE - self.offset;
        let n = if buf.len() < remaining {
            buf.len()
        } else {
            remaining
        };
        if self.offset + n == PAGE_PAYLOAD_SIZE && self.writer.len() > usize::MAX - 2048 {
            return Err(Error::Write { desc: "File size limit reached".to_owned() });
        }
        let ghost data = buf@.subrange(0, n as int);
        proof {
            self.lemma_content();
        }
        let mut i: usize = 0;
        while i < n
            invariant
                i <= n,
                n <= buf@.len(),
                self.offset + n <= 1020,
                self.offset == old(self).offset,
                self.page_buffer@.len() == 1024,
                self.page_buffer@ == filled(old(self).page_buffer@, self.offset as int, buf@.subrange(0, i as int)),
                self.writer == old(self).writer,
                self.cursor == old(self).cursor,
            decreases n - i,
        {
            self.page_buffer.set(self.offset + i, buf[i]);
            i = i + 1;
            assert(self.page_buffer@ =~= filled(old(self).page_buffer@, self.offset as int, buf@.subrange(0, i as int)));
        }
        let ghost page1 = self.page_buffer@;
        self.offset = self.offset + n;
        if self.offset == PAGE_PAYLOAD_SIZE {
            self.write_page();
            self.cursor = self.cursor + PAGE_SIZE;
            self.offset = 0;
            self.populate_existing_data();
            proof {
                lemma_write_sealed(old(self).writer@, old(self).cursor as int, page1);
            }
        }
        proof {
            let f = old(self).writer@;
            let start = old(self).cursor as int;
            let l = logical(f, 1024);
            assert(page1.subrange(0, 1020) =~= filled(old(self).page_buffer@.subrange(0, 1020), old(self).offset as int, data));
            if n > 0 {
                if self.offset > 0 {
                    lemma_write_sealed(f, start, page1);
                }
                lemma_splice(l, old(self).content(), (start / 1024) * 1020, old(self).page_buffer@.subrange(0, 1020), old(self).offset as int, data);
            } else {
                assert(data =~= Seq::<u8>::empty());
                assert(written_at(old(self).content(), old(self).logical_position(), data) =~= old(self).content());
                assert(padded(old(self).content()) == old(self).content());
            }
        }
        Ok(n)
    }

    /// Writes all of `buf`, page after page.
    /// Fails only where the file could not take another page; it is never owed while the
    /// file and twice the data stay a few pages below the machine limit.
    pub fn write_all(&mut self, buf: &[u8]) -> (r: Result<()>)
        requires
            old(self).wf(),
        ensures
            final(self).wf(),
            r is Ok ==> final(self).written_after(*old(self), buf@),
            old(self).can_take(buf@.len() as int) ==> r is Ok,
            r is Err ==> final(self).file().len() + 2048 > usize::MAX,
            r matches Err(e) ==> e is Write,
    {
        let mut done: usize = 0;
        proof {
            self.lemma_content();
            assert(buf@.subrange(0, 0) =~= Seq::<u8>::empty());
            assert(written_at(old(self).content(), old(self).logical_position(), Seq::<u8>::empty()) =~= old(self).content());
        }
        while done < buf.len()
            invariant
                self.wf(),
                done <= buf@.len(),
                self.content() == padded(
                    written_at(old(self).content(), old(self).logical_position(), buf@.subrange(0, done as int)),
                ),
                self.logical_position() == old(self).logical_position() + done,
                self.file().len() + 2 * self.page_offset() <= old(self).file().len() + 2 * old(self).page_offset() + 2 * done,
                old(self).wf(),
            decreases buf@.len() - done,
        {
            let ghost before = *self;
            let n = match self.write(&buf[done..buf.len()]) {
                Ok(n) => n,
                Err(e) => {
                    return Err(e);
                },
            };
            proof {
                old(self).lemma_content();
                before.lemma_content();
                lemma_padded_written_twice(old(self).content(), old(self).logical_position(), buf@.subrange(0, done as int), buf@.subrange(done as int, done + n));
                assert(buf@.subrange(0, done as int) + buf@.subrange(done as int, done + n) =~= buf@.subrange(0, done + n));
            }
            done = done + n;
        }
        proof {
            assert(buf@.subrange(0, buf@.len() as int) == buf@);
        }
        Ok(())
    }

    /// Seeks to a physical offset in the file, after writing the current page.
    /// Fails for offsets after the end of the file and for offsets inside a checksum.
    pub fn physical_seek(&mut self, pos: u64) -> (r: Result<()>)
        requires
            old(self).wf(),
        ensures
            final(self).wf(),
            r is Ok <==> ((old(self).page_offset() == 0 || old(self).has_room()) && pos
                <= old(self).flushed().len() && pos % 1024 < 1020),
            r is Ok ==> (final(self).file() == old(self).flushed() && final(self).page_start() == (pos
                / 1024) * 1024 && final(self).page_offset() == pos % 1024 && final(self).page()
                == populated(final(self).file(), final(self).page_start())),
            final(self).flushed() == old(self).flushed(),
            final(self).content() == old(self).content(),
            r is Err ==> final(self).logical_position() == old(self).logical_position(),
            r is Err ==> (final(self).file().len() + 2048 > usize::MAX || pos > old(self).flushed().len()
                || pos % 1024 >= 1020),
            r matches Err(e) ==> e is Write,
    {
        match self.flush() {
            Ok(()) => {},
            Err(e) => {
                return Err(e);
            },
        }
        let end = self.writer.len();
        if pos > end as u64 {
            return Err(Error::Write { desc: "Cannot seek after end of file".to_owned() });
        }
        if pos % 1024 >= 1020 {
            return Err(Error::Write { desc: "Cannot seek into checksum".to_owned() });
        }
        let ghost before = *self;
        let page = pos / 1024;
        self.cursor = (page * 1024) as usize;
        self.offset = (pos % 1024) as usize;
        self.populate_existing_data();
        proof {
            let f = self.writer@;
            let c = self.cursor as int;
            if self.offset > 0 {
                assert(c < f.len());
                lemma_rewrite_valid_page(f, c, self.page_buffer@);
            }
        }
        Ok(())
    }

    /// The physical size of the file once the current page is written.
    pub fn physical_size(&mut self) -> (r: Result<u64>)
        requires
            old(self).wf(),
        ensures
            final(self).wf(),
            r is Ok <==> (old(self).page_offset() == 0 || old(self).has_room()),
            r matches Ok(v) ==> v == old(self).flushed().len() && final(self).file() == old(self).flushed(),
            final(self).flushed() == old(self).flushed(),
            final(self).page_start() == old(self).page_start(),
            final(self).page_offset() == old(self).page_offset(),
            r matches Err(e) ==> e is Write,
    {
        match self.flush() {
            Ok(()) => {},
            Err(e) => {
                return Err(e);
            },
        }
        Ok(self.writer.len() as u64)
    }

    /// Writes zeros up to the next 4-byte-aligned offset, if needed.
    pub fn align(&mut self) -> (r: Result<()>)
        requires
            old(self).wf(),
        ensures
            final(self).wf(),
            ({
                let off = old(self).page_offset();
                let k = if off % 4 == 0 {
                    0
                } else {
                    4 - off % 4
                };
                &&& r is Ok <==> (k == 0 || off + k < 1020 || old(self).has_room())
                &&& r is Ok ==> final(self).content() == padded(
                    written_at(old(self).content(), old(self).logical_position(), Seq::new(k as nat, |i: int| 0u8)),
                )
                &&& r is Ok ==> final(self).logical_position() == old(self).logical_position() + k
                &&& r is Ok ==> final(self).page_offset() == (off + k) % 1020
                &&& r is Err ==> *final(self) == *old(self)
            }),
            r matches Err(e) ==> e is Write,
    {
        let mod_offset = self.offset % 4;
        if mod_offset != 0 {
            let mut zeros: Vec<u8> = Vec::new();
            let mut i: usize = mod_offset;
            while i < 4
                invariant
                    mod_offset <= i <= 4,
                    zeros@.len() == i - mod_offset,
                    forall|j: int| 0 <= j < zeros@.len() ==> #[trigger] zeros@[j] == 0u8,
                decreases 4 - i,
            {
                zeros.push(0);
                i = i + 1;
            }
            proof {
                assert(1020int % 4 == 0);
                assert(zeros@ =~= Seq::new((4 - mod_offset) as nat, |i: int| 0u8));
                assert(zeros@.subrange(0, zeros@.len() as int) == zeros@);
            }
            match self.write(zeros.as_slice()) {
                Ok(_) => {},
                Err(e) => {
                    return Err(e);
                },
            }
        } else {
            proof {
                self.lemma_content();
                assert(written_at(self.content(), self.logical_position(), Seq::new(0, |i: int| 0u8))
                    =~= self.content());
            }
        }
        Ok(())
    }

    /// Writes the current page and hands out the bytes of the file.
    /// Fails if the file could not take the current page.
    pub fn finish(self) -> (r: Result<Vec<u8>>)
        requires
            self.wf(),
        ensures
            r is Ok <==> (self.page_offset() == 0 || self.has_room()),
            r matches Ok(v) ==> v@ == self.flushed(),
            r matches Err(e) ==> e is Write,
    {
        let mut w = self;
        match w.flush() {
            Ok(()) => {},
            Err(e) => {
                return Err(e);
            },
        }
        Ok(w.writer)
    }
}

/// What a paged writer writes, a paged reader with the same page size reads back: the
/// reader's logical content is the writer's, and every byte of it passes the checksum test.
pub proof fn lemma_written_content_reads_back(w: PagedWriter, r: PagedReader)
    requires
        w.wf(),
        r.wf(),
        r.phys() == w.flushed(),
        r.page_size_spec() == 1024,
    ensures
        r.content() == w.content(),
        forall|n: int| 0 <= n && r.pos() + n <= r.content().len() ==> #[trigger] r.can_read(n),
{
    w.lemma_content();
    assert forall|n: int| 0 <= n && r.pos() + n <= r.content().len() implies #[trigger] r.can_read(n) by {
        assert forall|k: int| r.pos() <= k < r.pos() + n implies #[trigger] r.byte_valid(k) by {
            let p = k / 1020;
            assert(p < (r.phys().len() as int) / 1024);
            assert(page_valid(r.phys(), 1024, p));
        }
    }
}

/// Bytes written through a paged writer read back: a paged reader over the file as the writer
/// leaves it, placed at the logical offset where the bytes were written, can read them and
/// finds exactly these bytes.
pub proof fn lemma_written_bytes_read_back(w0: PagedWriter, w1: PagedWriter, data: Seq<u8>, r: PagedReader)
    requires
        w0.wf(),
        w1.wf(),
        w1.written_after(w0, data),
        r.wf(),
        r.phys() == w1.flushed(),
        r.page_size_spec() == 1024,
        r.pos() == w0.logical_position(),
    ensures
        r.can_read(data.len() as int),
        r.peek(data.len() as int) == data,
{
    lemma_written_content_reads_back(w1, r);
    lemma_written_after_len(w1, w0, data);
    let x = written_at(w0.content(), w0.logical_position(), data);
    assert(r.content().len() >= r.pos() + data.len());
    assert forall|j: int| 0 <= j < data.len() implies #[trigger] r.peek(data.len() as int)[j] == data[j] by {
        assert(x[w0.logical_position() + j] == data[j]);
        assert(padded(x)[w0.logical_position() + j] == x[w0.logical_position() + j]);
    }
    assert(r.peek(data.len() as int) =~= data);
}

/// Writing `a` over the first bytes of a padded write of `a0 + b`, where `a` and `a0` have the
/// same length, is the padded write of `a + b`.
pub(crate) proof fn lemma_overwrite_start(c: Seq<u8>, p: int, a0: Seq<u8>, a: Seq<u8>, b: Seq<u8>)
    requires
        c.len() % 1020 == 0,
        0 <= p <= c.len(),
        a0.len() == a.len(),
    ensures
        padded(written_at(padded(written_at(c, p, a0 + b)), p, a)) == padded(written_at(c, p, a + b)),
{
    let x = written_at(c, p, a0 + b);
    let y = written_at(c, p, a + b);
    lemma_pad_len_between(x.len() as int, x.len() as int);
    assert(x.len() == y.len());
    let px = padded(x);
    let w = written_at(px, p, a);
    assert(w.len() == px.len());
    assert(padded(w) == w);
    let py = padded(y);
    assert(py.len() == px.len());
    assert forall|i: int| 0 <= i < w.len() implies #[trigger] w[i] == py[i] by {
        if i >= x.len() {
            assert(px[i] == 0u8);
            assert(py[i] == 0u8);
        }
    }
    assert(w =~= py);
}

impl PagedWriter {
    /// A physical offset outside the checksums whose logical offset lies within the written
    /// content lies within the flushed file.
    pub(crate) proof fn lemma_phys_within(&self, pos: int)
        requires
            self.wf(),
            0 <= pos,
            pos % 1024 < 1020,
            (pos / 1024) * 1020 + pos % 1024 <= self.content().len(),
        ensures
            pos <= self.flushed().len(),
    {
        self.lemma_content();
        let m = (self.flushed().len() as int) / 1024;
        assert(self.flushed().len() == m * 1024);
        assert(self.content().len() == m * 1020);
        let q = pos / 1024;
        assert(pos == q * 1024 + pos % 1024);
    }

    /// The logical offset of the writer is that of its physical position, and it is as
    /// aligned to four bytes as the offset in the current page.
    pub(crate) proof fn lemma_position(&self)
        requires
            self.wf(),
        ensures
            ({
                let pos = self.page_start() + self.page_offset();
                &&& pos / 1024 == self.page_start() / 1024
                &&& pos % 1024 == self.page_offset()
                &&& self.logical_position() % 4 == self.page_offset() % 4
            }),
    {
        let q = self.page_start() / 1024;
        assert(self.page_start() == q * 1024);
        let pos = self.page_start() + self.page_offset();
        assert(pos == q * 1024 + self.page_offset());
    }
}

/// A write leaves the content at least as long as it was and as the end of the written data.
pub(crate) proof fn lemma_written_after_len(w: PagedWriter, before: PagedWriter, data: Seq<u8>)
    requires
        w.written_after(before, data),
    ensures
        w.content().len() >= before.logical_position() + data.len(),
        w.content().len() >= before.content().len(),
{
    let x = written_at(before.content(), before.logical_position(), data);
    lemma_pad_len_between(x.len() as int, x.len() as int);
    assert(padded(x).len() == pad_len(x.len() as int));
}

/// Two writes one after the other are one write of both.
pub proof fn lemma_written_after_chain(w0: PagedWriter, w1: PagedWriter, w2: PagedWriter, a: Seq<u8>, b: Seq<u8>)
    requires
        w0.wf(),
        w1.written_after(w0, a),
        w2.written_after(w1, b),
    ensures
        w2.written_after(w0, a + b),
{
    w0.lemma_content();
    lemma_padded_written_twice(w0.content(), w0.logical_position(), a, b);
}

/// A writer is itself after writing nothing.
pub proof fn lemma_written_after_nothing(w: PagedWriter)
    requires
        w.wf(),
    ensures
        w.written_after(w, Seq::<u8>::empty()),
{
    w.lemma_content();
    assert(written_at(w.content(), w.logical_position(), Seq::<u8>::empty()) =~= w.content());
}

} // verus!
