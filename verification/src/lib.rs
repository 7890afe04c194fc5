//! Reading and writing the binary layer of E57 point cloud files.
//!
//! The library covers the page layer with its CRC checksums, the file,
//! section and packet headers, blobs, the bit streams that hold the point
//! attributes, the XML elements the library generates, and the rules that
//! point cloud prototypes and extension names must follow.

mod bit_seq;
mod bitpack;
mod blob;
mod bounds;
mod bs_read;
mod bs_write;
mod byte_stream;
mod codec;
pub mod comp_vector;
mod contents;
mod crc32;
mod cv_section;
mod cv_writer;
mod descriptor;
mod e57_file;
mod error;
mod extension;
mod framing;
mod header;
mod images;
mod index_laws;
mod le_bytes;
mod limits;
mod packet;
mod paged_reader;
mod paged_writer;
mod pc_writer;
mod points;
mod prototype_laws;
mod queue_reader;
mod record;
mod root;
mod text;
mod xml;
mod xml_node;
mod xml_parse;
mod xml_laws;
mod xml_read;

pub use self::bit_seq::{bit_at, le_nat};
pub use self::bitpack::BitPack;
pub use self::blob::{Blob, BlobSectionHeader};
pub use self::bounds::IndexBounds;
pub use self::bs_read::ByteStreamReadBuffer;
pub use self::bs_write::ByteStreamWriteBuffer;
pub use self::byte_stream::{ByteStream, ByteStreamExtraction};
pub use self::cv_section::CompressedVectorSectionHeader;
pub use self::contents::{read_file_contents, FileContents};
pub use self::cv_writer::CompressedVectorWriter;
pub use self::descriptor::{integer_limits, points_child, PointCloudHead};
pub use self::e57_file::{extract_xml, get_u64, is_e57_extension, raw_xml, validate_crc, MAX_XML_SIZE};
pub use self::error::{Converter, Error, Result, WRONG_OFFSET};
pub use self::extension::Extension;
pub use self::header::Header;
pub use self::limits::{ColorLimits, IntensityLimits};
pub use self::images::{ImageBlob, ImageFormat, VisualReferenceImage, VisualReferenceImageProperties};
pub use self::packet::{DataPacketHeader, IgnoredPacketHeader, IndexPacketHeader, PacketHeader};
pub use self::paged_reader::{PagedReader, SeekFrom};
pub use self::paged_writer::PagedWriter;
pub use self::pc_writer::{get_max_packet_points, update_max, update_min, validate_prototype};
pub use self::points::read_points;
pub use self::queue_reader::{append_vec_to_queue, QueueReader};
pub use self::root::Root;
pub use self::record::{integer_bits, serialize_integer, Record, RecordDataType, RecordName, RecordValue};
pub use self::xml::{gen_float, gen_int, gen_string, i64_to_decimal, u64_to_decimal};
pub use self::xml_node::{XmlAttribute, XmlNamespace, XmlNode};
pub use self::xml_parse::{parse_xml, utf8_string};
pub use self::xml_read::{opt_int, opt_string, req_int, req_string, str_to_i64, str_to_u64};
