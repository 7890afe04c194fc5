# e57

Reading and writing E57 point cloud files, with the binary layer of the format
verified by Verus.

## Layout

- `src/` is the verified library. Every function has a contract that Verus
  checks against its body:
  - `paged_reader`, `paged_writer`: the page layer with a CRC-32C checksum at
    the end of each 1024-byte page; what the writer writes, a reader over the
    written bytes reads back (`lemma_written_content_reads_back`).
  - `header`, `cv_section`, `packet`, `comp_vector`, `blob`: file, section,
    packet and blob headers; each header reads back as written.
  - `bs_write`, `bs_read`, `byte_stream`, `bitpack`, `record`: the bit streams
    that hold the point attributes; `codec` proves that the bits written for a
    value decode back to it and that a stream handed out in chunks decodes, on
    the reading side, to the values written.
  - `pc_writer`, `cv_writer`, `framing`, `queue_reader`: prototype rules, data
    packets, the writer of compressed vector sections and the reader that
    decodes their packets into per-record queues; a data packet written from
    points parses back to these points (`lemma_packet_write_read`).
  - `xml`, `xml_read`, `xml_node`, `bounds`, `images`, `extension`, `limits`,
    `root`, `descriptor`: the XML elements the library generates and reads, the
    parts of point cloud descriptors without floating point values, and the
    rules for extension names.
  - `contents`, `xml_parse`, `points`: reading a file from its bytes (header,
    XML section, UTF-8 text, element tree parsed with `roxmltree` behind a
    trusted wrapper, shared values, extensions and point cloud entries), and
    reading a given number of points through the packet reader.
  - `crc32`: the one call into the `crc` crate, behind a trusted wrapper whose
    contract states the CRC-32C checksum.
- `tests/` exercises the library, including files written and read back.
- `app/` holds what the library leaves out: file access and the floating point
  side of values, bounds, limits and images, which it reads from the XML
  document with `roxmltree`.
