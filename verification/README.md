# ogg

An Ogg container decoder and encoder, following the xiph.org framing
specification, with its logic verified by Verus.

## Layout

- `src/` is the verified library:
  - `crc.rs`: the CRC-32 of the Ogg framing, table-driven, proved equal to the
    bitwise definition of the checksum;
  - `le.rs`: little-endian encodings of header fields;
  - `reading.rs`: the page parser, the reassembly of packets from pages
    (`BasePacketReader`), the search for a page header, the decisions of the
    search for a granule position, and the page decoder for byte buffers;
  - `writing.rs`: packing packets into pages (`BasePacketWriter`);
  - `round_trip.rs`: what a reader gives back of what a writer wrote, proved
    for any number of interleaved logical bitstreams, and the numbering of
    the pages that the writer emits;
  - `buf_reader.rs`: the rollback buffer for reads that may fail;
  - `backports.rs`: small helpers on std types.
- `app/` holds the parts that do I/O: `PacketReader` and `PacketWriter` over
  `std::io`, their async counterparts over tokio, and `std::io` traits for the
  rollback buffer.
- `tests/` drives the library the way `app/` does, over in-memory streams.
