use crate::error::{Error, Result};
use crate::le_bytes::{le_at, read_u64_le};
use crate::paged_reader::{all_pages_valid, page_valid, PagedReader};
use vstd::prelude::*;
use vstd::string::StrSliceExecFns;

verus! {

/// Largest XML section that this library reads.
pub const MAX_XML_SIZE: usize = 52428800;

/// Reads the little-endian `u64` at `offset` of the raw file bytes.
pub fn get_u64(data: &[u8], offset: usize) -> (r: Result<u64>)
    ensures
        r is Ok <==> offset + 8 <= data@.len(),
        r matches Ok(v) ==> v == le_at(data@, offset as int, 8),
        r matches Err(e) ==> e is Read,
{
    if offset > data.len() || data.len() - offset < 8 {
        return Err(Error::Read { desc: "Cannot read bytes of a header value".to_owned() });
    }
    Ok(read_u64_le(data, offset))
}

/// Reads the XML section of `length` bytes at a physical file offset.
pub fn extract_xml(reader: &mut PagedReader, offset: u64, length: usize) -> (r: Result<Vec<u8>>)
    requires
        old(reader).wf(),
    ensures
        final(reader).wf(),
        final(reader).phys() == old(reader).phys(),
        final(reader).page_size_spec() == old(reader).page_size_spec(),
        ({
            let p = offset - (offset as int / old(reader).page_size_spec()) * 4;
            &&& length > MAX_XML_SIZE ==> (r matches Err(e) && e is NotImplemented)
            &&& r is Ok <==> (length <= MAX_XML_SIZE && offset < old(reader).phys().len()
                && crate::blob::readable_at(*old(reader), p, length as int))
            &&& r matches Ok(v) ==> v@ == Seq::new(length as nat, |j: int| old(reader).content()[p + j])
            &&& (length <= MAX_XML_SIZE && r is Err) ==> (r matches Err(e) && e is Read)
        }),
{
    if length > MAX_XML_SIZE {
        return Error::not_implemented("XML sections larger than 52428800 bytes are not supported");
    }
    let ghost r0 = *reader;
    match reader.seek_physical(offset) {
        Ok(_) => {},
        Err(_) => {
            return Err(Error::Read { desc: "Cannot seek to XML offset".to_owned() });
        },
    }
    let ghost p = reader.pos();
    proof {
        assert forall|k: int| #![trigger reader.byte_valid(k)] #![trigger r0.byte_valid(k)] reader.byte_valid(k) == r0.byte_valid(k) by {}
        if reader.can_read(length as int) {
            assert(crate::blob::readable_at(r0, p, length as int));
        }
        if crate::blob::readable_at(r0, p, length as int) {
            assert forall|k: int| reader.pos() <= k < reader.pos() + length implies #[trigger] reader.byte_valid(k) by {
                assert(r0.byte_valid(k));
            }
        }
    }
    match reader.read_exact(length) {
        Ok(v) => Ok(v),
        Err(_) => Err(Error::Read { desc: "Failed to read XML data".to_owned() }),
    }
}

/// Checks the checksum of every page of the file and returns the page size the header names.
pub fn validate_crc(data: Vec<u8>) -> (r: Result<u64>)
    requires
        data@.len() + 8 <= u64::MAX,
    ensures
        ({
            let ps = le_at(data@, 40, 8);
            &&& r is Ok <==> (data@.len() >= 48 && ps > 4 && (data@.len() as int) % (ps as int) == 0
                && all_pages_valid(data@, ps as int))
            &&& r matches Ok(v) ==> v == ps
        }),
        r matches Err(e) ==> e is Read,
{
    let page_size = match get_u64(data.as_slice(), 40) {
        Ok(v) => v,
        Err(e) => {
            return Err(e);
        },
    };
    let ghost bytes = data@;
    let mut paged_reader = match PagedReader::new(data, page_size) {
        Ok(r) => r,
        Err(_) => {
            return Err(Error::Read { desc: "Failed creating paged CRC reader".to_owned() });
        },
    };
    let len = paged_reader.phys_len();
    proof {
        assert(page_size <= len) by (nonlinear_arith)
            requires
                len > 0,
                (len as int) % (page_size as int) == 0,
                page_size > 0,
        ;
    }
    let max = page_size as usize;
    let ghost d = page_size - 4;
    let ghost count = paged_reader.page_count();
    let mut page: u64 = 0;
    loop
        invariant
            paged_reader.wf(),
            paged_reader.phys() == bytes,
            paged_reader.page_size_spec() == page_size,
            page_size == le_at(bytes, 40, 8),
            bytes == data@,
            bytes.len() >= 48,
            page_size > 4,
            max == page_size,
            d == page_size - 4,
            count == paged_reader.page_count(),
            page <= count,
            paged_reader.pos() == page * d,
            forall|j: int| 0 <= j < page ==> #[trigger] page_valid(bytes, page_size as int, j),
        ensures
            page == count,
            forall|j: int| 0 <= j < page ==> #[trigger] page_valid(bytes, page_size as int, j),
        decreases count - page,
    {
        let ghost pos = paged_reader.pos();
        proof {
            assert(pos / d == page && pos % d == 0) by (nonlinear_arith)
                requires
                    pos == page * d,
                    d > 0,
                    page >= 0,
            ;
        }
        let chunk = match paged_reader.read(max) {
            Ok(c) => c,
            Err(_) => {
                proof {
                    assert(!page_valid(bytes, page_size as int, page as int));
                    assert(!all_pages_valid(bytes, page_size as int));
                }
                return Err(Error::Read { desc: "Failed to validate CRC of a page".to_owned() });
            },
        };
        if chunk.len() == 0 {
            break;
        }
        proof {
            assert((page + 1) * d == page * d + d) by (nonlinear_arith);
        }
        page = page + 1;
    }
    proof {
        assert(all_pages_valid(bytes, page_size as int));
    }
    Ok(page_size)
}

/// The logical bytes `q .. q + n` of a file with pages of size `ps` exist and lie in pages
/// with valid checksums.
pub open spec fn logical_readable(phys: Seq<u8>, ps: int, q: int, n: int) -> bool {
    n == 0 || (0 <= q && q + n <= crate::paged_reader::logical(phys, ps).len() && forall|k: int|
        q <= k < q + n ==> #[trigger] page_valid(phys, ps, k / (ps - 4)))
}

/// Reads the raw XML section of a file: the header names its page size, offset and length.
pub fn raw_xml(data: Vec<u8>) -> (r: Result<Vec<u8>>)
    requires
        data@.len() + 8 <= u64::MAX,
    ensures
        ({
            let ps = le_at(data@, 40, 8);
            let offset = le_at(data@, 24, 8);
            let length = le_at(data@, 32, 8);
            let p = offset - (offset / ps) * 4;
            &&& r is Ok <==> (data@.len() >= 48 && length <= MAX_XML_SIZE && ps > 4 && (data@.len() as int) % (
            ps as int) == 0 && offset < data@.len() && logical_readable(data@, ps as int, p, length as int))
            &&& data@.len() >= 48 && length > MAX_XML_SIZE ==> (r matches Err(e) && e is NotImplemented)
        }),
        r matches Ok(v) ==> ({
            let ps = le_at(data@, 40, 8);
            let offset = le_at(data@, 24, 8);
            let p = offset - (offset / ps) * 4;
            &&& data@.len() >= 48
            &&& v@.len() == le_at(data@, 32, 8)
            &&& v@ == Seq::new(v@.len(), |j: int| crate::paged_reader::logical(data@, ps as int)[p + j])
        }),
        r matches Err(e) ==> e is Read || e is NotImplemented,
{
    let page_size = match get_u64(data.as_slice(), 40) {
        Ok(v) => v,
        Err(e) => {
            return Err(e);
        },
    };
    let xml_offset = match get_u64(data.as_slice(), 24) {
        Ok(v) => v,
        Err(e) => {
            return Err(e);
        },
    };
    let xml_length = match get_u64(data.as_slice(), 32) {
        Ok(v) => v,
        Err(e) => {
            return Err(e);
        },
    };
    if xml_length > MAX_XML_SIZE as u64 {
        return Error::not_implemented("XML sections larger than 52428800 bytes are not supported");
    }
    let ghost bytes = data@;
    let mut paged_reader = match PagedReader::new(data, page_size) {
        Ok(r) => r,
        Err(_) => {
            return Err(Error::Read { desc: "Failed creating paged CRC reader".to_owned() });
        },
    };
    proof {
        let p = xml_offset - (xml_offset as int / page_size as int) * 4;
        let n = xml_length as int;
        if crate::blob::readable_at(paged_reader, p, n) {
            assert forall|k: int| p <= k < p + n implies #[trigger] page_valid(bytes, page_size as int, k / (page_size - 4)) by {
                assert(paged_reader.byte_valid(k));
            }
        }
        if logical_readable(bytes, page_size as int, p, n) {
            assert forall|k: int| p <= k < p + n implies #[trigger] paged_reader.byte_valid(k) by {
                assert(page_valid(bytes, page_size as int, k / (page_size - 4)));
            }
        }
        assert(crate::blob::readable_at(paged_reader, p, xml_length as int) == logical_readable(
            bytes,
            page_size as int,
            p,
            xml_length as int,
        ));
    }
    extract_xml(&mut paged_reader, xml_offset, xml_length as usize)
}

/// The file name extension marks an E57 file: "e57" in either case.
pub fn is_e57_extension(ext: &str) -> (r: bool)
    ensures
        r <==> (ext@.len() == 3 && (ext@[0] == 'e' || ext@[0] == 'E') && ext@[1] == '5' && ext@[2] == '7'),
{
    if ext.unicode_len() != 3 {
        return false;
    }
    let c0 = ext.get_char(0);
    let c1 = ext.get_char(1);
    let c2 = ext.get_char(2);
    (c0 == 'e' || c0 == 'E') && c1 == '5' && c2 == '7'
}

} // verus!
