//! Reading logic: page parsing, checksum verification and the reassembly of
//! packets from the pages of one or more logical bitstreams.

use vstd::prelude::*;
use std::collections::HashMap;
use byteorder::{ByteOrder, LittleEndian};
use crate::crc::{crc32_of, lemma_crc32_concat, vorbis_crc32_update};
use crate::le::le_value;
use crate::Packet;

verus! {

broadcast use vstd::std_specs::hash::group_hash_axioms;

#[verifier::external_type_specification]
#[verifier::external_body]
pub struct ExIoError(std::io::Error);

/// Error that can be raised when decoding an Ogg transport.
#[derive(Debug)]
pub enum OggReadError {
    /// The capture pattern for a new page was not found
    /// where one was expected.
    NoCapturePatternFound,
    /// Invalid stream structure version, with the given one
    /// attached.
    InvalidStreamStructVer(u8),
    /// Mismatch of the hash value with (expected, calculated) value.
    HashMismatch(u32, u32),
    /// I/O error occured.
    ReadError(std::io::Error),
    /// Some constraint required by the spec was not met.
    InvalidData,
}

impl OggReadError {
    /// A short description of the error kind.
    pub fn description_str(&self) -> (res: &'static str)
        ensures
            res@ == (match *self {
                OggReadError::NoCapturePatternFound => "No Ogg capture pattern found"@,
                OggReadError::InvalidStreamStructVer(_) => "A non zero stream structure version was passed"@,
                OggReadError::HashMismatch(_, _) => "CRC32 hash mismatch"@,
                OggReadError::ReadError(_) => "I/O error"@,
                OggReadError::InvalidData => "Constraint violated"@,
            }),
    {
        match *self {
            OggReadError::NoCapturePatternFound => "No Ogg capture pattern found",
            OggReadError::InvalidStreamStructVer(_) => "A non zero stream structure version was passed",
            OggReadError::HashMismatch(_, _) => "CRC32 hash mismatch",
            OggReadError::ReadError(_) => "I/O error",
            OggReadError::InvalidData => "Constraint violated",
        }
    }

    /// The underlying I/O error, if this error wraps one.
    pub fn cause(&self) -> (res: Option<&std::io::Error>)
        ensures
            match *self {
                OggReadError::ReadError(ref e) => res == Some(e),
                _ => res is None,
            },
    {
        match *self {
            OggReadError::ReadError(ref err) => Some(err),
            _ => None,
        }
    }
}

impl From<std::io::Error> for OggReadError {
    fn from(err: std::io::Error) -> (res: OggReadError)
        ensures
            res == OggReadError::ReadError(err),
    {
        OggReadError::ReadError(err)
    }
}

impl vstd::std_specs::convert::FromSpecImpl<std::io::Error> for OggReadError {
    open spec fn obeys_from_spec() -> bool {
        true
    }

    open spec fn from_spec(err: std::io::Error) -> OggReadError {
        OggReadError::ReadError(err)
    }
}

// ---------------------------------------------------------------------------
// Little-endian fields of the page header.

/// Calls `byteorder::LittleEndian::read_u32` on the bytes of `buf` from `off` on.
/// Claimed: the result is the little-endian number in the four bytes at `off`
/// (byteorder reads the first four bytes of the slice it is given, and panics
/// on fewer, which the precondition rules out).
#[verifier::external_body]
fn read_u32_le_at(buf: &[u8], off: usize) -> (res: u32)
    requires
        off + 4 <= buf@.len(),
    ensures
        res as int == le_value(buf@.subrange(off as int, off + 4)),
{
    LittleEndian::read_u32(&buf[off..])
}

/// Calls `byteorder::LittleEndian::read_u64` on the bytes of `buf` from `off` on.
/// Claimed: the result is the little-endian number in the eight bytes at `off`
/// (byteorder reads the first eight bytes of the slice it is given, and panics
/// on fewer, which the precondition rules out).
#[verifier::external_body]
fn read_u64_le_at(buf: &[u8], off: usize) -> (res: u64)
    requires
        off + 8 <= buf@.len(),
    ensures
        res as int == le_value(buf@.subrange(off as int, off + 8)),
{
    LittleEndian::read_u64(&buf[off..])
}

// ---------------------------------------------------------------------------
// The lacing values ("segment table") of a page.

/// The number of lacing values below 255: each of them ends a packet.
pub open spec fn short_count(segs: Seq<u8>) -> nat
    decreases segs.len(),
{
    if segs.len() == 0 {
        0
    } else {
        short_count(segs.drop_last()) + (if segs.last() < 255 { 1nat } else { 0nat })
    }
}

/// The sum of the lacing values: the size of the page body.
pub open spec fn lacing_sum(segs: Seq<u8>) -> nat
    decreases segs.len(),
{
    if segs.len() == 0 {
        0
    } else {
        lacing_sum(segs.drop_last()) + segs.last() as nat
    }
}

/// Splits a lacing into packets: the (offset, length) of every packet that ends
/// in it, then the offset and the length so far of the packet that is still open.
pub open spec fn lacing_split(segs: Seq<u8>) -> (Seq<(int, int)>, int, int)
    decreases segs.len(),
{
    if segs.len() == 0 {
        (Seq::empty(), 0, 0)
    } else {
        let (done, offs, cur) = lacing_split(segs.drop_last());
        let cur2 = cur + segs.last();
        if segs.last() < 255 {
            (done.push((offs, cur2)), offs + cur2, 0)
        } else {
            (done, offs, cur2)
        }
    }
}

/// The packet positions of a page body with lacing `segs`: those of the packets
/// that end in the page, followed by that of the continued one if there is one.
pub open spec fn lacing_positions(segs: Seq<u8>, ends_continued: bool) -> Seq<(int, int)> {
    let (done, offs, cur) = lacing_split(segs);
    if ends_continued {
        done.push((offs, cur))
    } else {
        done
    }
}

/// Whether the last packet of a page with lacing `segs` continues on the next page.
pub open spec fn lacing_ends_continued(segs: Seq<u8>, starts_continued: bool) -> bool {
    if segs.len() == 0 {
        starts_continued
    } else {
        segs.last() == 255
    }
}

/// Facts about the split of a lacing.
pub proof fn lemma_lacing_split(segs: Seq<u8>)
    ensures
        ({
            let (done, offs, cur) = lacing_split(segs);
            &&& done.len() == short_count(segs)
            &&& 0 <= offs
            &&& 0 <= cur
            &&& offs + cur == lacing_sum(segs)
            &&& forall|k: int|
                0 <= k < done.len() ==> 0 <= #[trigger] done[k].0 && 0 <= done[k].1 && done[k].0
                    + done[k].1 <= offs
        }),
        lacing_sum(segs) <= 255 * segs.len(),
        short_count(segs) <= segs.len(),
    decreases segs.len(),
{
    if segs.len() > 0 {
        lemma_lacing_split(segs.drop_last());
    }
}

/// A prefix of a lacing has no more bytes and no more packet ends than the lacing.
proof fn lemma_prefix_counts(segs: Seq<u8>, i: int)
    requires
        0 <= i <= segs.len(),
    ensures
        lacing_sum(segs.take(i)) <= lacing_sum(segs),
        short_count(segs.take(i)) <= short_count(segs),
    decreases segs.len() - i,
{
    if i < segs.len() {
        lemma_prefix_counts(segs, i + 1);
        assert(segs.take(i + 1).drop_last() =~= segs.take(i));
    } else {
        assert(segs.take(i) =~= segs);
    }
}

/// The sum of the lacing values of two pieces of a lacing is the sum of their sums.
pub proof fn lemma_lacing_sum_concat(a: Seq<u8>, b: Seq<u8>)
    ensures
        lacing_sum(a + b) == lacing_sum(a) + lacing_sum(b),
    decreases b.len(),
{
    if b.len() == 0 {
        assert(a + b =~= a);
    } else {
        lemma_lacing_sum_concat(a, b.drop_last());
        assert((a + b).drop_last() =~= a + b.drop_last());
    }
}

/// A byte stream made of whole, well-formed pages, one after the other: each
/// begins with the capture pattern and stream structure version 0, carries as
/// many body bytes as its lacing values say, and the checksum in its header is
/// that of the page with the checksum field cleared.
pub open spec fn valid_pages(s: Seq<u8>) -> bool
    decreases s.len(),
{
    if s.len() == 0 {
        true
    } else if s.len() < 27 {
        false
    } else {
        let h = s.take(27);
        let nseg = s[26] as int;
        if s.len() < 27 + nseg {
            false
        } else {
            let segs = s.subrange(27, 27 + nseg);
            let n = 27 + nseg + lacing_sum(segs);
            &&& s.len() >= n
            &&& h.take(4) == capture_pattern()
            &&& h[4] == 0
            &&& le_value(h.subrange(22, 26)) == crc32_of(
                0,
                header_with_zero_crc(h) + segs + s.subrange(27 + nseg, n),
            )
            &&& valid_pages(s.skip(n))
        }
    }
}

/// The length of the first page of a stream that begins with a whole page.
pub open spec fn first_page_len(s: Seq<u8>) -> int {
    27 + s[26] as int + lacing_sum(s.subrange(27, 27 + s[26] as int))
}

/// Two streams of whole pages, one after the other, are a stream of whole pages.
pub proof fn lemma_valid_pages_concat(a: Seq<u8>, b: Seq<u8>)
    requires
        valid_pages(a),
        valid_pages(b),
    ensures
        valid_pages(a + b),
    decreases a.len(),
{
    if a.len() == 0 {
        assert(a + b =~= b);
    } else {
        let s = a + b;
        let nseg = a[26] as int;
        let n = first_page_len(a);
        assert(s.take(27) =~= a.take(27));
        assert(s[26] == a[26]);
        assert(s.subrange(27, 27 + nseg) =~= a.subrange(27, 27 + nseg));
        assert(s.subrange(27 + nseg, n) =~= a.subrange(27 + nseg, n));
        lemma_valid_pages_concat(a.skip(n), b);
        assert(s.skip(n) =~= a.skip(n) + b);
    }
}

/// The view of a sequence of exec packet positions.
pub open spec fn positions_view(v: Seq<(u16, u16)>) -> Seq<(int, int)> {
    v.map_values(|p: (u16, u16)| (p.0 as int, p.1 as int))
}

// ---------------------------------------------------------------------------
// Pages.

/// The header fields of a page as the model sees them.
pub struct PageBaseView {
    pub starts_with_continued: bool,
    pub first_page: bool,
    pub last_page: bool,
    pub absgp: u64,
    pub checksum: u32,
    pub sequence_num: u32,
    pub packet_positions: Seq<(int, int)>,
    pub ends_with_continued: bool,
}

/// Containing information about an OGG page that is shared between multiple places
struct PageBaseInfo {
    /// `true`: the first packet is continued from the page before. `false`: if it's a "fresh" one
    starts_with_continued: bool,
    /// `true` if this page is the first one in the logical bitstream
    first_page: bool,
    /// `true` if this page is the last one in the logical bitstream
    last_page: bool,
    /// Absolute granule position. The codec defines further meaning.
    absgp: u64,
    /// Checksum stored in the page header
    checksum: u32,
    /// Page counter
    sequence_num: u32,
    /// Packet information:
    /// index is number of packet,
    /// tuple is (offset, length) of packet
    /// if ends_with_continued is true, the last element will contain information
    /// about the continued packet
    packet_positions: Vec<(u16, u16)>,
    /// `true` if the packet is continued in subsequent page(s)
    /// `false` if the packet has a segment of length < 255 inside this page
    ends_with_continued: bool,
}

impl View for PageBaseInfo {
    type V = PageBaseView;

    closed spec fn view(&self) -> PageBaseView {
        PageBaseView {
            starts_with_continued: self.starts_with_continued,
            first_page: self.first_page,
            last_page: self.last_page,
            absgp: self.absgp,
            checksum: self.checksum,
            sequence_num: self.sequence_num,
            packet_positions: positions_view(self.packet_positions@),
            ends_with_continued: self.ends_with_continued,
        }
    }
}

/// The state of a page parser, or of a parsed page.
pub struct PageView {
    pub base: PageBaseView,
    pub stream_serial: u32,
    pub checksum: u32,
    pub header: Seq<u8>,
    pub packet_count: int,
    /// The lacing values once they are parsed, the page body once it is parsed.
    pub buf: Seq<u8>,
}

/// The flags byte of a page header.
pub open spec fn header_flags(h: Seq<u8>) -> u8 {
    h[5]
}

/// The state of a parser that was just created from the header `h`.
pub open spec fn fresh_parser(v: PageView, h: Seq<u8>) -> bool {
    &&& v.header == h
    &&& v.base.starts_with_continued == (header_flags(h) & 1 != 0)
    &&& v.base.first_page == (header_flags(h) & 2 != 0)
    &&& v.base.last_page == (header_flags(h) & 4 != 0)
    &&& v.base.absgp as int == le_value(h.subrange(6, 14))
    &&& v.stream_serial as int == le_value(h.subrange(14, 18))
    &&& v.base.sequence_num as int == le_value(h.subrange(18, 22))
    &&& v.checksum as int == le_value(h.subrange(22, 26))
    &&& v.base.checksum == v.checksum
    &&& v.base.packet_positions == Seq::<(int, int)>::empty()
    &&& !v.base.ends_with_continued
    &&& v.packet_count == 0
    &&& v.buf == Seq::<u8>::empty()
}

/// The state of a parser created from the header `h`.
pub open spec fn parser_from_header(h: Seq<u8>) -> PageView {
    PageView {
        base: PageBaseView {
            starts_with_continued: header_flags(h) & 1 != 0,
            first_page: header_flags(h) & 2 != 0,
            last_page: header_flags(h) & 4 != 0,
            absgp: le_value(h.subrange(6, 14)) as u64,
            checksum: le_value(h.subrange(22, 26)) as u32,
            sequence_num: le_value(h.subrange(18, 22)) as u32,
            packet_positions: Seq::empty(),
            ends_with_continued: false,
        },
        stream_serial: le_value(h.subrange(14, 18)) as u32,
        checksum: le_value(h.subrange(22, 26)) as u32,
        header: h,
        packet_count: 0,
        buf: Seq::empty(),
    }
}

/// The state of a parser `v` once it parsed the lacing values `segs`.
pub open spec fn segments_parsed(v: PageView, segs: Seq<u8>) -> PageView {
    let ends = lacing_ends_continued(segs, v.base.starts_with_continued);
    PageView {
        base: PageBaseView {
            packet_positions: lacing_positions(segs, ends),
            ends_with_continued: ends,
            ..v.base
        },
        packet_count: v.packet_count + short_count(segs),
        buf: segs,
        ..v
    }
}

/// The checksum that `parse_packet_data` computes for the parser `v` and the body `data`.
pub open spec fn computed_checksum(v: PageView, data: Seq<u8>) -> u32 {
    crc32_of(0, header_with_zero_crc(v.header) + v.buf + data)
}

/// The page that `parse_packet_data` returns for the parser `v` and the body `data`.
pub open spec fn page_with_body(v: PageView, data: Seq<u8>) -> PageView {
    PageView { header: header_with_zero_crc(v.header), buf: data, ..v }
}

/// The header with the checksum field cleared, as the checksum is computed over it.
pub open spec fn header_with_zero_crc(h: Seq<u8>) -> Seq<u8> {
    h.update(22, 0).update(23, 0).update(24, 0).update(25, 0)
}

/// A page whose lacing and body agree: what `push_page` needs of a page.
pub open spec fn page_consistent(v: PageView) -> bool {
    let pos = v.base.packet_positions;
    &&& pos.len() == v.packet_count + (if v.base.ends_with_continued { 1int } else { 0int })
    &&& pos.len() <= 255
    &&& forall|k: int|
        0 <= k < pos.len() ==> 0 <= #[trigger] pos[k].0 && 0 <= pos[k].1 && pos[k].0 + pos[k].1
            <= v.buf.len() && pos[k].0 + pos[k].1 <= u16::MAX
}

/// A page that `push_page` accepts: its lacing and body agree, and a page that
/// starts with a continued packet has an entry for it.
pub open spec fn page_pushable(v: PageView) -> bool {
    &&& page_consistent(v)
    &&& v.base.starts_with_continued ==> v.base.packet_positions.len() >= 1
}

/// A page that the parser made of a header, at most 255 lacing values and a body
/// of the size that they add up to, is a page that `push_page` accepts to be given.
pub proof fn lemma_parsed_page_pushable(h: Seq<u8>, segs: Seq<u8>, body: Seq<u8>)
    requires
        segs.len() <= 255,
        body.len() == lacing_sum(segs),
    ensures
        page_pushable(page_with_body(segments_parsed(parser_from_header(h), segs), body)),
{
    let p = page_with_body(segments_parsed(parser_from_header(h), segs), body);
    lemma_lacing_split(segs);
    let (done, offs, cur) = lacing_split(segs);
    let pos = p.base.packet_positions;
    if segs.len() > 0 {
        lemma_lacing_split(segs.drop_last());
        if segs.last() < 255 {
            assert(done.len() >= 1);
        } else {
            assert(short_count(segs) <= segs.len() - 1);
        }
    }
    assert forall|k: int| 0 <= k < pos.len() implies 0 <= #[trigger] pos[k].0 && 0 <= pos[k].1
        && pos[k].0 + pos[k].1 <= p.buf.len() && pos[k].0 + pos[k].1 <= u16::MAX by {
        if k < done.len() {
            assert(pos[k] == done[k]);
        }
    }
}

/// Contains a fully parsed OGG page.
pub struct OggPage(PageParser);

impl View for OggPage {
    type V = PageView;

    closed spec fn view(&self) -> PageView {
        self.0@
    }
}

impl OggPage {
    /// Returns whether there is an ending packet in the page
    fn has_packet_end(&self) -> (res: bool)
        requires
            page_consistent(self@),
        ensures
            res == (self@.base.packet_positions.len() - (if self@.base.ends_with_continued {
                1int
            } else {
                0int
            }) > 0),
    {
        (self.0.bi.packet_positions.len() - self.0.bi.ends_with_continued as usize) > 0
    }

    /// Returns whether there is a packet that both
    /// starts and ends inside the page
    fn has_whole_packet(&self) -> (res: bool)
        ensures
            res == (self@.base.packet_positions.len() - (if self@.base.ends_with_continued {
                1int
            } else {
                0int
            }) - (if self@.base.starts_with_continued {
                1int
            } else {
                0int
            }) > 0),
    {
        self.0.bi.packet_positions.len().saturating_sub(
            self.0.bi.ends_with_continued as usize + self.0.bi.starts_with_continued as usize,
        ) > 0
    }

    /// Returns whether there is a starting packet in the page
    fn has_packet_start(&self) -> (res: bool)
        requires
            page_pushable(self@),
        ensures
            res == (self@.base.packet_positions.len() - (if self@.base.starts_with_continued {
                1int
            } else {
                0int
            }) > 0),
    {
        (self.0.bi.packet_positions.len() - self.0.bi.starts_with_continued as usize) > 0
    }
}

/// Helper struct for parsing pages
///
/// It's created using the `new` function and then it's fed more data via the
/// `parse_segments` and `parse_packet_data` functions, each called exactly once
/// and in that precise order.
///
/// Then later code uses the `OggPage` returned by the `parse_packet_data` function.
pub struct PageParser {
    // Members packet_positions, ends_with_continued and packet_count
    // get populated after segments have been parsed
    bi: PageBaseInfo,
    stream_serial: u32,
    checksum: u32,
    header_buf: [u8; 27],
    /// Number of packet ending segments
    packet_count: u16,
    /// after segments have been parsed, this contains the segments buffer,
    /// after the packet data have been read, this contains the packets buffer.
    segments_or_packets_buf: Vec<u8>,
}

impl View for PageParser {
    type V = PageView;

    closed spec fn view(&self) -> PageView {
        PageView {
            base: self.bi@,
            stream_serial: self.stream_serial,
            checksum: self.checksum,
            header: self.header_buf@,
            packet_count: self.packet_count as int,
            buf: self.segments_or_packets_buf@,
        }
    }
}

impl PageParser {
    /// Creates a new Page parser
    ///
    /// The `header_buf` param contains the first 27 bytes of a new OGG page.
    /// Determining when one begins is your responsibility. Usually they
    /// begin directly after the end of a previous OGG page, but
    /// after you've performed a seek you might end up within the middle of a page
    /// and need to recapture.
    ///
    /// Returns a page parser, and the requested size of the segments array.
    /// You should allocate and fill such an array, in order to pass it to the
    /// `parse_segments` function.
    pub fn new(header_buf: [u8; 27]) -> (res: Result<(PageParser, usize), OggReadError>)
        ensures
            match res {
                Err(e) => header_buf[4] != 0 && e == OggReadError::InvalidStreamStructVer(
                    header_buf[4],
                ),
                Ok((p, n)) => header_buf[4] == 0 && fresh_parser(p@, header_buf@) && p@
                    == parser_from_header(header_buf@) && n == header_buf[26],
            },
    {
        let stream_structure_version = header_buf[4];
        if stream_structure_version != 0 {
            return Err(OggReadError::InvalidStreamStructVer(stream_structure_version));
        }
        let header_type_flag = header_buf[5];
        let absgp = read_u64_le_at(&header_buf, 6);
        let stream_serial = read_u32_le_at(&header_buf, 14);
        let sequence_num = read_u32_le_at(&header_buf, 18);
        let checksum = read_u32_le_at(&header_buf, 22);
        let page_segments = header_buf[26] as usize;
        let p = PageParser {
            bi: PageBaseInfo {
                starts_with_continued: header_type_flag & 0x01u8 != 0,
                first_page: header_type_flag & 0x02u8 != 0,
                last_page: header_type_flag & 0x04u8 != 0,
                absgp,
                checksum,
                sequence_num,
                packet_positions: Vec::new(),
                ends_with_continued: false,
            },
            stream_serial,
            checksum,
            header_buf,
            packet_count: 0,
            segments_or_packets_buf: Vec::new(),
        };
        assert(positions_view(p.bi.packet_positions@) =~= Seq::<(int, int)>::empty());
        assert(p@ == parser_from_header(header_buf@));
        Ok((p, page_segments))
    }

    /// Parses the segments buffer, and returns the requested size
    /// of the packets content array.
    ///
    /// You should allocate and fill such an array, in order to pass it to the
    /// `parse_packet_data` function.
    pub fn parse_segments(&mut self, segments_buf: Vec<u8>) -> (page_siz: usize)
        requires
            lacing_sum(segments_buf@) <= u16::MAX,
            old(self)@.packet_count + short_count(segments_buf@) <= u16::MAX,
        ensures
            page_siz == lacing_sum(segments_buf@),
            final(self)@ == segments_parsed(old(self)@, segments_buf@),
    {
        let ghost segs = segments_buf@;
        let mut page_siz: u16 = 0;
        // Whether our page ends with a continued packet
        let mut ends_with_continued: bool = self.bi.starts_with_continued;
        let mut packet_count: u16 = self.packet_count;

        // First run: get the number of packets,
        // whether the page ends with a continued packet,
        // and the size of the page's body
        let n = segments_buf.len();
        let mut i: usize = 0;
        while i < n
            invariant
                n == segs.len(),
                segments_buf@ == segs,
                0 <= i <= n,
                page_siz == lacing_sum(segs.take(i as int)),
                packet_count == old(self)@.packet_count + short_count(segs.take(i as int)),
                lacing_sum(segs) <= u16::MAX,
                old(self)@.packet_count + short_count(segs) <= u16::MAX,
                ends_with_continued == lacing_ends_continued(
                    segs.take(i as int),
                    old(self)@.base.starts_with_continued,
                ),
            decreases n - i,
        {
            let val = segments_buf[i];
            proof {
                assert(segs.take(i + 1).drop_last() =~= segs.take(i as int));
                lemma_lacing_split(segs.take(i + 1));
                lemma_prefix_counts(segs, i + 1);
            }
            page_siz = page_siz + val as u16;
            // Increment by 1 if val < 255, otherwise by 0
            packet_count = packet_count + (if val < 255 { 1u16 } else { 0u16 });
            ends_with_continued = !(val < 255);
            i = i + 1;
        }
        assert(segs.take(n as int) =~= segs);

        let mut packets: Vec<(u16, u16)> = Vec::new();
        let mut cur_packet_siz: u16 = 0;
        let mut cur_packet_offs: u16 = 0;

        // Second run: get the offsets of the packets
        let mut i: usize = 0;
        while i < n
            invariant
                n == segs.len(),
                segments_buf@ == segs,
                0 <= i <= n,
                lacing_sum(segs) <= u16::MAX,
                ({
                    let (done, offs, cur) = lacing_split(segs.take(i as int));
                    &&& positions_view(packets@) == done
                    &&& cur_packet_offs == offs
                    &&& cur_packet_siz == cur
                }),
            decreases n - i,
        {
            let val = segments_buf[i];
            proof {
                assert(segs.take(i + 1).drop_last() =~= segs.take(i as int));
                lemma_lacing_split(segs.take(i + 1));
                lemma_lacing_split(segs.take(i as int));
                lemma_prefix_counts(segs, i + 1);
            }
            cur_packet_siz = cur_packet_siz + val as u16;
            if val < 255 {
                let ghost before = packets@;
                packets.push((cur_packet_offs, cur_packet_siz));
                proof {
                    assert(positions_view(packets@) =~= positions_view(before).push(
                        (cur_packet_offs as int, cur_packet_siz as int),
                    ));
                }
                cur_packet_offs = cur_packet_offs + cur_packet_siz;
                cur_packet_siz = 0;
            }
            i = i + 1;
        }
        proof {
            lemma_lacing_split(segs);
        }
        if ends_with_continued {
            let ghost before = packets@;
            packets.push((cur_packet_offs, cur_packet_siz));
            proof {
                assert(positions_view(packets@) =~= positions_view(before).push(
                    (cur_packet_offs as int, cur_packet_siz as int),
                ));
            }
        }
        self.packet_count = packet_count;
        self.bi.ends_with_continued = ends_with_continued;
        self.bi.packet_positions = packets;
        self.segments_or_packets_buf = segments_buf;
        assert(self.bi@.packet_positions =~= lacing_positions(segs, ends_with_continued));
        page_siz as usize
    }

    /// Parses the packets data and verifies the checksum.
    ///
    /// Returns an `OggPage` to be used by later code.
    pub fn parse_packet_data(self, packet_data: Vec<u8>) -> (res: Result<OggPage, OggReadError>)
        ensures
            ({
                let computed = computed_checksum(self@, packet_data@);
                match res {
                    Err(e) => self@.checksum != computed && e == OggReadError::HashMismatch(
                        self@.checksum,
                        computed,
                    ),
                    Ok(page) => self@.checksum == computed && page@ == page_with_body(
                        self@,
                        packet_data@,
                    ),
                }
            }),
    {
        let mut s = self;
        // 1. Clear the checksum field in the header
        s.header_buf[22] = 0;
        s.header_buf[23] = 0;
        s.header_buf[24] = 0;
        s.header_buf[25] = 0;
        assert(s.header_buf@ =~= header_with_zero_crc(self@.header));

        // 2. Calculate the hash
        let mut hash_calculated: u32;
        hash_calculated = vorbis_crc32_update(0, &s.header_buf);
        hash_calculated = vorbis_crc32_update(hash_calculated, s.segments_or_packets_buf.as_slice());
        hash_calculated = vorbis_crc32_update(hash_calculated, packet_data.as_slice());
        proof {
            lemma_crc32_concat(0, s.header_buf@, s.segments_or_packets_buf@);
            lemma_crc32_concat(
                0,
                s.header_buf@ + s.segments_or_packets_buf@,
                packet_data@,
            );
        }

        // 3. Compare to the extracted one
        if s.checksum != hash_calculated {
            return Err(OggReadError::HashMismatch(s.checksum, hash_calculated));
        }
        s.segments_or_packets_buf = packet_data;
        Ok(OggPage(s))
    }
}


// ---------------------------------------------------------------------------
// Packet reassembly.

/// The model of the reassembly state of one logical bitstream.
pub struct PageInfoView {
    pub base: PageBaseView,
    pub packet_idx: int,
    pub page_body: Seq<u8>,
    pub overlap: Seq<Seq<u8>>,
    /// The packet continued into the page began on the first page of the stream.
    pub continued_first: bool,
}

/// The model of a `BasePacketReader`.
pub struct ReaderView {
    pub page_infos: Map<u32, PageInfoView>,
    pub stream_with_stuff: Option<u32>,
    pub has_seeked: bool,
}

/// Internal helper struct for PacketReader state
struct PageInfo {
    /// Basic information about the last read page
    bi: PageBaseInfo,
    /// The index of the first "unread" packet
    packet_idx: u8,
    /// Contains the package data
    page_body: Vec<u8>,
    /// If there is a residue from previous pages in terms of a package spanning multiple
    /// pages, this field contains it. Having this Vec<Vec<u8>> and
    /// not Vec<u8> ensures to give us O(n) complexity, not O(n^2)
    /// for `n` as number of pages that the packet is contained in.
    last_overlap_pck: Vec<Vec<u8>>,
    /// `true` if the packet continued from earlier pages into this page began
    /// on the first page of the stream: it is the first packet of the stream.
    cont_first: bool,
}

/// The view of a sequence of byte vectors.
pub open spec fn chunks_view(v: Seq<Vec<u8>>) -> Seq<Seq<u8>> {
    v.map_values(|c: Vec<u8>| c@)
}

impl View for PageInfo {
    type V = PageInfoView;

    closed spec fn view(&self) -> PageInfoView {
        PageInfoView {
            base: self.bi@,
            packet_idx: self.packet_idx as int,
            page_body: self.page_body@,
            overlap: chunks_view(self.last_overlap_pck@),
            continued_first: self.cont_first,
        }
    }
}

/// The number of the continued packet's entry in the positions (0 or 1).
pub open spec fn ends_flag(b: PageBaseView) -> int {
    if b.ends_with_continued {
        1
    } else {
        0
    }
}

/// What the reassembly state of a stream must satisfy.
pub open spec fn info_wf(i: PageInfoView) -> bool {
    let pos = i.base.packet_positions;
    &&& pos.len() <= 255
    &&& 0 <= i.packet_idx
    &&& i.packet_idx + ends_flag(i.base) <= pos.len()
    &&& forall|k: int|
        0 <= k < pos.len() ==> 0 <= #[trigger] pos[k].0 && 0 <= pos[k].1 && pos[k].0 + pos[k].1
            <= i.page_body.len() && pos[k].0 + pos[k].1 <= u16::MAX
}

/// Whether the next packet to read is the last one that ends in the page.
pub open spec fn is_last_in_page(i: PageInfoView) -> bool {
    i.packet_idx + 1 + ends_flag(i.base) == i.base.packet_positions.len()
}

/// Whether the next packet to read began on earlier pages and must be glued together.
pub open spec fn glue_needed(i: PageInfoView) -> bool {
    &&& i.packet_idx == 0
    &&& i.base.starts_with_continued
    &&& !(i.base.ends_with_continued && i.base.packet_positions.len() == 1)
}

/// The bytes of the page body that belong to the next packet.
pub open spec fn packet_slice(i: PageInfoView) -> Seq<u8> {
    let p = i.base.packet_positions[i.packet_idx];
    i.page_body.subrange(p.0, p.0 + p.1)
}

/// The content of the next packet.
pub open spec fn next_packet_data(i: PageInfoView) -> Seq<u8> {
    if glue_needed(i) {
        i.overlap.flatten_alt() + packet_slice(i)
    } else {
        packet_slice(i)
    }
}

/// The reassembly state of a stream after its next packet was read.
pub open spec fn info_after_read(i: PageInfoView) -> PageInfoView {
    PageInfoView {
        packet_idx: i.packet_idx + 1,
        overlap: if glue_needed(i) {
            Seq::empty()
        } else {
            i.overlap
        },
        ..i
    }
}

/// The packet that is read next from the stream `s` with reassembly state `i`.
pub open spec fn next_packet(i: PageInfoView, s: u32) -> crate::PacketView {
    crate::PacketView {
        data: next_packet_data(i),
        first_in_page: i.packet_idx == (if i.base.starts_with_continued {
            1int
        } else {
            0int
        }),
        first_in_stream: i.packet_idx == 0 && if i.base.starts_with_continued {
            i.continued_first
        } else {
            i.base.first_page
        },
        last_in_page: is_last_in_page(i),
        last_in_stream: i.base.last_page && is_last_in_page(i),
        absgp_page: i.base.absgp,
        stream_serial: s,
        checksum_page: i.base.checksum,
    }
}

/// A page whose first, continued, packet is dropped: done after a seek, where
/// the beginning of that packet is not known.
pub open spec fn drop_continued_packet(p: PageView) -> PageView {
    PageView {
        base: PageBaseView {
            starts_with_continued: false,
            packet_positions: p.base.packet_positions.drop_first(),
            ends_with_continued: if p.packet_count != 0 {
                p.base.ends_with_continued
            } else {
                false
            },
            ..p.base
        },
        packet_count: if p.packet_count != 0 {
            p.packet_count - 1
        } else {
            p.packet_count
        },
        ..p
    }
}

/// The reassembly state of a stream whose current page is `p`.
pub open spec fn fresh_info(p: PageView, overlap: Seq<Seq<u8>>, cf: bool) -> PageInfoView {
    PageInfoView { base: p.base, packet_idx: 0, page_body: p.buf, overlap, continued_first: cf }
}

/// Whether the packet that continues after the page of `i` is the first packet of
/// the stream: it is the only packet of that page, and began there on the first
/// page of the stream, or was continued into it from there.
pub open spec fn trailing_first(i: PageInfoView) -> bool {
    &&& i.base.ends_with_continued
    &&& i.base.packet_positions.len() == 1
    &&& if i.base.starts_with_continued {
        i.continued_first
    } else {
        i.base.first_page
    }
}

/// The reader state after page `p` (maybe trimmed) became the current page of its stream.
pub open spec fn with_page(v: ReaderView, p: PageView, overlap: Seq<Seq<u8>>, cf: bool) -> ReaderView {
    ReaderView {
        page_infos: v.page_infos.insert(p.stream_serial, fresh_info(p, overlap, cf)),
        stream_with_stuff: if p.packet_count > 0 {
            Some(p.stream_serial)
        } else {
            None
        },
        ..v
    }
}

/// What pushing the page `p` does to a reader in state `v`: `None` when the page
/// is refused as invalid, else the new state.
pub open spec fn push_outcome(v: ReaderView, p: PageView) -> Option<ReaderView> {
    let s = p.stream_serial;
    if v.page_infos.contains_key(s) {
        let inf = v.page_infos[s];
        if p.base.first_page {
            None
        } else if p.base.starts_with_continued != inf.base.ends_with_continued {
            if !v.has_seeked {
                None
            } else if p.base.starts_with_continued {
                Some(with_page(v, drop_continued_packet(p), Seq::empty(), false))
            } else {
                Some(with_page(v, p, Seq::empty(), false))
            }
        } else if p.base.starts_with_continued {
            Some(with_page(v, p, inf.overlap.push(packet_slice(inf)), trailing_first(inf)))
        } else {
            Some(with_page(v, p, inf.overlap, false))
        }
    } else {
        if !v.has_seeked {
            if !p.base.first_page || p.base.starts_with_continued {
                None
            } else {
                Some(with_page(v, p, Seq::empty(), false))
            }
        } else if p.base.starts_with_continued {
            Some(with_page(v, drop_continued_packet(p), Seq::empty(), false))
        } else {
            Some(with_page(v, p, Seq::empty(), false))
        }
    }
}

proof fn lemma_drop_continued_consistent(p: PageView)
    requires
        page_pushable(p),
        p.base.starts_with_continued,
    ensures
        page_consistent(drop_continued_packet(p)),
{
    let q = drop_continued_packet(p);
    let pos = p.base.packet_positions;
    assert forall|k: int| 0 <= k < q.base.packet_positions.len() implies 0
        <= #[trigger] q.base.packet_positions[k].0 && 0 <= q.base.packet_positions[k].1
        && q.base.packet_positions[k].0 + q.base.packet_positions[k].1 <= q.buf.len()
        && q.base.packet_positions[k].0 + q.base.packet_positions[k].1 <= u16::MAX by {
        assert(q.base.packet_positions[k] == pos[k + 1]);
    }
}

impl PageInfo {
    /// Returns `true` if the first "unread" packet is the first one
    /// that starts in the page, `false` otherwise. When the page begins with
    /// the end of a packet from earlier pages, that is the packet after it.
    fn is_first_pck_in_pg(&self) -> (res: bool)
        ensures
            res == (self@.packet_idx == (if self@.base.starts_with_continued {
                1int
            } else {
                0int
            })),
    {
        self.packet_idx == (if self.bi.starts_with_continued {
            1u8
        } else {
            0u8
        })
    }

    /// Returns `true` if the first "unread" packet is the last one
    /// in the page, `false` otherwise.
    /// If the first "unread" packet isn't completed in this page
    /// (spans page borders), this returns `false`.
    fn is_last_pck_in_pg(&self) -> (res: bool)
        requires
            self@.packet_idx + 1 + ends_flag(self@.base) <= 255,
        ensures
            res == is_last_in_page(self@),
    {
        (self.packet_idx + 1 + (self.bi.ends_with_continued as u8)) as usize
            == self.bi.packet_positions.len()
    }
}

/// Low level struct for reading from an Ogg stream.
///
/// Note that most times you'll want the higher level `PacketReader` struct.
///
/// It takes care of most of the internal parsing and logic, you
/// will only have to take care of handing over your data.
///
/// Essentially, it manages a cache of package data for each logical
/// bitstream, and when the cache of every logical bistream is empty,
/// it asks for a fresh page. You will then need to feed the struct
/// one via the `push_page` function.
///
/// All functions on this struct are async ready.
/// They get their data fed, instead of calling and blocking
/// in order to get it.
pub struct BasePacketReader {
    /// Contains info about all logical streams that
    page_infos: HashMap<u32, PageInfo>,
    /// Contains the stream_serial of the stream that contains some unprocessed packet data.
    /// There is always <= 1, bc if there is one, no new pages will be read, so there is no
    /// chance for a second to be added
    /// None if there is no such stream and one has to read a new page.
    stream_with_stuff: Option<u32>,
    // Bool that is set to true when a seek of the stream has occured.
    // This helps validator code to decide whether to accept certain strange data.
    has_seeked: bool,
}

/// The view of the map of reassembly states.
spec fn infos_view(m: Map<u32, PageInfo>) -> Map<u32, PageInfoView> {
    m.map_values(|i: PageInfo| i@)
}

impl View for BasePacketReader {
    type V = ReaderView;

    closed spec fn view(&self) -> ReaderView {
        ReaderView {
            page_infos: infos_view(self.page_infos@),
            stream_with_stuff: self.stream_with_stuff,
            has_seeked: self.has_seeked,
        }
    }
}

/// What the state of a `BasePacketReader` satisfies between calls.
pub open spec fn reader_wf(v: ReaderView) -> bool {
    &&& forall|k: u32| #[trigger] v.page_infos.contains_key(k) ==> info_wf(v.page_infos[k])
    &&& v.stream_with_stuff matches Some(s) ==> {
        &&& v.page_infos.contains_key(s)
        &&& v.page_infos[s].packet_idx + ends_flag(v.page_infos[s].base)
            < v.page_infos[s].base.packet_positions.len()
    }
}

proof fn lemma_infos_insert(m: Map<u32, PageInfo>, k: u32, i: PageInfo)
    ensures
        infos_view(m.insert(k, i)) == infos_view(m).insert(k, i@),
{
    assert(infos_view(m.insert(k, i)) =~= infos_view(m).insert(k, i@));
}

proof fn lemma_infos_remove(m: Map<u32, PageInfo>, k: u32)
    ensures
        infos_view(m.remove(k)) == infos_view(m).remove(k),
{
    assert(infos_view(m.remove(k)) =~= infos_view(m).remove(k));
}

impl BasePacketReader {
    /// Constructs a new blank `BasePacketReader`.
    ///
    /// You can feed it data using the `push_page` function, and
    /// obtain data using the `read_packet` function.
    pub fn new() -> (res: Self)
        ensures
            reader_wf(res@),
            res@.page_infos == Map::<u32, PageInfoView>::empty(),
            res@.stream_with_stuff is None,
            !res@.has_seeked,
    {
        let r = BasePacketReader {
            page_infos: HashMap::new(),
            stream_with_stuff: None,
            has_seeked: false,
        };
        assert(r@.page_infos =~= Map::<u32, PageInfoView>::empty());
        r
    }

    /// Extracts a packet from the cache, if the cache contains valid packet data,
    /// otherwise it returns `None`.
    ///
    /// If this function returns `None`, you'll need to add a page to the cache
    /// by using the `push_page` function.
    pub fn read_packet(&mut self) -> (res: Option<Packet>)
        requires
            reader_wf(old(self)@),
        ensures
            reader_wf(final(self)@),
            match old(self)@.stream_with_stuff {
                None => res is None && final(self)@ == old(self)@,
                Some(s) => {
                    &&& res matches Some(p) && p@ == next_packet(old(self)@.page_infos[s], s)
                    &&& final(self)@ == after_read(old(self)@, s)
                },
            },
    {
        let str_serial: u32 = match self.stream_with_stuff {
            None => {
                return None;
            },
            Some(s) => s,
        };
        let ghost old_map = self.page_infos@;
        let mut pg_info = match self.page_infos.remove(&str_serial) {
            Some(i) => i,
            None => {
                proof {
                    assert(infos_view(old_map).contains_key(str_serial));
                }
                return None;
            },
        };
        proof {
            lemma_infos_remove(old_map, str_serial);
            assert(infos_view(old_map)[str_serial] == pg_info@);
        }
        let ghost i = pg_info@;
        let (offs, len) = pg_info.bi.packet_positions[pg_info.packet_idx as usize];
        proof {
            assert(i.base.packet_positions[i.packet_idx] == (offs as int, len as int));
        }
        // If there is a continued packet, and we are at the start right now,
        // and we actually have its end in the current page, glue it together.
        let need_to_glue = pg_info.packet_idx == 0 && pg_info.bi.starts_with_continued && !(
        pg_info.bi.ends_with_continued && pg_info.bi.packet_positions.len() == 1);
        let end: usize = offs as usize + len as usize;
        let packet_content: Vec<u8> = if need_to_glue {
            let mut cont: Vec<u8> = Vec::new();
            let n = pg_info.last_overlap_pck.len();
            let mut j: usize = 0;
            while j < n
                invariant
                    n == pg_info.last_overlap_pck@.len(),
                    0 <= j <= n,
                    pg_info@ == i,
                    cont@ == i.overlap.take(j as int).flatten_alt(),
                decreases n - j,
            {
                let mut piece = vstd::slice::slice_to_vec(pg_info.last_overlap_pck[j].as_slice());
                proof {
                    assert(i.overlap[j as int] == pg_info.last_overlap_pck@[j as int]@);
                    assert(i.overlap.take(j + 1).drop_last() =~= i.overlap.take(j as int));
                }
                cont.append(&mut piece);
                j = j + 1;
            }
            assert(i.overlap.take(n as int) =~= i.overlap);
            // Now reset the overlap container again
            pg_info.last_overlap_pck = Vec::new();
            let mut rest = vstd::slice::slice_to_vec(
                vstd::slice::slice_subrange(pg_info.page_body.as_slice(), offs as usize, end),
            );
            cont.append(&mut rest);
            cont
        } else {
            vstd::slice::slice_to_vec(
                vstd::slice::slice_subrange(pg_info.page_body.as_slice(), offs as usize, end),
            )
        };

        let first_pck_in_pg = pg_info.is_first_pck_in_pg();
        // The first packet of the stream is the first one of its first page,
        // also when it only ends on a later page.
        let first_pck_overall = pg_info.packet_idx == 0 && if pg_info.bi.starts_with_continued {
            pg_info.cont_first
        } else {
            pg_info.bi.first_page
        };

        let last_pck_in_pg = pg_info.is_last_pck_in_pg();
        let last_pck_overall = pg_info.bi.last_page && last_pck_in_pg;

        // Update the last read index.
        pg_info.packet_idx = pg_info.packet_idx + 1;
        let absgp = pg_info.bi.absgp;
        let checksum = pg_info.bi.checksum;
        proof {
            assert(pg_info@.overlap =~= info_after_read(i).overlap);
            assert(pg_info@ == info_after_read(i));
        }
        self.page_infos.insert(str_serial, pg_info);
        proof {
            lemma_infos_insert(old_map.remove(str_serial), str_serial, pg_info);
            assert(infos_view(old_map).remove(str_serial).insert(str_serial, info_after_read(i))
                =~= infos_view(old_map).insert(str_serial, info_after_read(i)));
        }
        // Set stream_with_stuff to None so that future packet reads
        // yield a page read first
        if last_pck_in_pg {
            self.stream_with_stuff = None;
        }
        let p = Packet {
            data: packet_content,
            first_packet_pg: first_pck_in_pg,
            first_packet_stream: first_pck_overall,
            last_packet_pg: last_pck_in_pg,
            last_packet_stream: last_pck_overall,
            absgp_page: absgp,
            stream_serial: str_serial,
            checksum_page: checksum,
        };
        assert(p@.data =~= next_packet_data(i));
        Some(p)
    }

    /// Pushes a given Ogg page, updating the internal structures
    /// with its contents.
    ///
    /// If you want the code to function properly, you should first call
    /// `parse_segments`, then `parse_packet_data` on a `PageParser`
    /// before passing the resulting `OggPage` to this function.
    pub fn push_page(&mut self, page: OggPage) -> (res: Result<(), OggReadError>)
        requires
            reader_wf(old(self)@),
            page_pushable(page@),
        ensures
            reader_wf(final(self)@),
            match push_outcome(old(self)@, page@) {
                None => res == Err::<(), OggReadError>(OggReadError::InvalidData) && final(self)@
                    == old(self)@,
                Some(v) => res is Ok && final(self)@ == v,
            },
    {
        let ghost pv = page@;
        let ghost old_map = self.page_infos@;
        let ghost ov = self@;
        let mut pg_prs = page.0;
        let serial = pg_prs.stream_serial;
        let existing = self.page_infos.remove(&serial);
        proof {
            lemma_infos_remove(old_map, serial);
        }
        let ghost mut overlap: Seq<Seq<u8>> = Seq::empty();
        let ghost mut final_page: PageView = pv;
        let mut cont_first = false;
        match existing {
            Some(mut inf) => {
                proof {
                    assert(infos_view(old_map).contains_key(serial));
                    assert(infos_view(old_map)[serial] == inf@);
                    assert(infos_view(old_map).remove(serial).insert(serial, inf@) =~= infos_view(
                        old_map,
                    ));
                    lemma_infos_insert(old_map.remove(serial), serial, inf);
                }
                let ghost iv = inf@;
                // Whether the packet that continues after the stream's current
                // page is the first packet of the stream.
                let trailing_first = inf.bi.ends_with_continued && inf.bi.packet_positions.len() == 1
                    && if inf.bi.starts_with_continued {
                    inf.cont_first
                } else {
                    inf.bi.first_page
                };
                if pg_prs.bi.first_page {
                    self.page_infos.insert(serial, inf);
                    return Err(OggReadError::InvalidData);
                }
                if pg_prs.bi.starts_with_continued != inf.bi.ends_with_continued {
                    if !self.has_seeked {
                        self.page_infos.insert(serial, inf);
                        return Err(OggReadError::InvalidData);
                    } else {
                        // If we have seeked, we are more tolerant here,
                        // and just drop the continued packet's content.
                        inf.last_overlap_pck.clear();
                        assert(chunks_view(inf.last_overlap_pck@) =~= Seq::<Seq<u8>>::empty());
                        if pg_prs.bi.starts_with_continued {
                            proof {
                                lemma_drop_continued_consistent(pv);
                            }
                            let ghost before = pg_prs.bi.packet_positions@;
                            pg_prs.bi.packet_positions.remove(0);
                            proof {
                                assert(positions_view(pg_prs.bi.packet_positions@) =~= positions_view(
                                    before,
                                ).drop_first());
                            }
                            if pg_prs.packet_count != 0 {
                                // Decrease packet count by one. Normal case.
                                pg_prs.packet_count = pg_prs.packet_count - 1;
                            } else {
                                // If the packet count is 0, this means
                                // that we start and end with the same continued packet.
                                // So now as we ignore that packet, we must clear the
                                // ends_with_continued state as well.
                                pg_prs.bi.ends_with_continued = false;
                            }
                            // The first entry now is a packet that starts in the page.
                            pg_prs.bi.starts_with_continued = false;
                            assert(pg_prs@ == drop_continued_packet(pv));
                        }
                    }
                } else if pg_prs.bi.starts_with_continued {
                    // Remember the packet at the end so that it can be glued together once
                    // we encounter the next segment with length < 255 (doesnt have to be in this page)
                    let (offs, len) = inf.bi.packet_positions[inf.packet_idx as usize];
                    proof {
                        assert(iv.base.packet_positions[iv.packet_idx] == (offs as int, len as int));
                    }
                    let end: usize = offs as usize + len as usize;
                    let ghost before = inf.last_overlap_pck@;
                    let tmp = vstd::slice::slice_to_vec(
                        vstd::slice::slice_subrange(inf.page_body.as_slice(), offs as usize, end),
                    );
                    inf.last_overlap_pck.push(tmp);
                    proof {
                        assert(chunks_view(inf.last_overlap_pck@) =~= chunks_view(before).push(
                            packet_slice(iv),
                        ));
                    }
                    cont_first = trailing_first;
                }
                proof {
                    overlap = inf@.overlap;
                    final_page = pg_prs@;
                }
                inf.bi = pg_prs.bi;
                inf.packet_idx = 0;
                inf.page_body = pg_prs.segments_or_packets_buf;
                inf.cont_first = cont_first;
                self.page_infos.insert(serial, inf);
                proof {
                    lemma_infos_insert(old_map.remove(serial), serial, inf);
                    assert(inf@ == fresh_info(final_page, overlap, cont_first));
                    assert(infos_view(old_map).remove(serial).insert(serial, inf@) =~= infos_view(
                        old_map,
                    ).insert(serial, inf@));
                }
            },
            None => {
                proof {
                    assert(!infos_view(old_map).contains_key(serial));
                    assert(infos_view(old_map).remove(serial) =~= infos_view(old_map));
                }
                if !self.has_seeked {
                    if !pg_prs.bi.first_page || pg_prs.bi.starts_with_continued {
                        // If we haven't seeked, this is an error.
                        return Err(OggReadError::InvalidData);
                    }
                } else {
                    if pg_prs.bi.starts_with_continued {
                        // Ignore the continued packet's content.
                        // This is a normal occurence if we have just seeked.
                        proof {
                            lemma_drop_continued_consistent(pv);
                        }
                        let ghost before = pg_prs.bi.packet_positions@;
                        pg_prs.bi.packet_positions.remove(0);
                        proof {
                            assert(positions_view(pg_prs.bi.packet_positions@) =~= positions_view(
                                before,
                            ).drop_first());
                        }
                        if pg_prs.packet_count != 0 {
                            // Decrease packet count by one. Normal case.
                            pg_prs.packet_count = pg_prs.packet_count - 1;
                        } else {
                            // If the packet count is 0, this means
                            // that we start and end with the same continued packet.
                            // So now as we ignore that packet, we must clear the
                            // ends_with_continued state as well.
                            pg_prs.bi.ends_with_continued = false;
                        }
                        // The first entry now is a packet that starts in the page.
                        pg_prs.bi.starts_with_continued = false;
                    }
                }
                proof {
                    final_page = pg_prs@;
                }
                let inf = PageInfo {
                    bi: pg_prs.bi,
                    packet_idx: 0,
                    page_body: pg_prs.segments_or_packets_buf,
                    last_overlap_pck: Vec::new(),
                    cont_first: false,
                };
                assert(chunks_view(inf.last_overlap_pck@) =~= Seq::<Seq<u8>>::empty());
                self.page_infos.insert(serial, inf);
                proof {
                    lemma_infos_insert(old_map.remove(serial), serial, inf);
                    assert(inf@ == fresh_info(final_page, overlap, cont_first));
                    assert(infos_view(old_map).remove(serial).insert(serial, inf@) =~= infos_view(
                        old_map,
                    ).insert(serial, inf@));
                }
            },
        }
        let pg_has_stuff: bool = pg_prs.packet_count > 0;

        if pg_has_stuff {
            self.stream_with_stuff = Some(pg_prs.stream_serial);
        } else {
            self.stream_with_stuff = None;
        }
        proof {
            assert(self@ == with_page(ov, final_page, overlap, cont_first));
        }
        Ok(())
    }

    /// Reset the internal state after a seek
    ///
    /// It flushes the cache so that no partial data is left inside.
    /// It also tells the parsing logic to expect little inconsistencies
    /// due to the read position not being at the start.
    pub fn update_after_seek(&mut self)
        ensures
            reader_wf(final(self)@),
            final(self)@ == (ReaderView {
                page_infos: Map::empty(),
                stream_with_stuff: None,
                has_seeked: true,
            }),
    {
        self.stream_with_stuff = None;
        self.page_infos = HashMap::new();
        self.has_seeked = true;
        assert(self@.page_infos =~= Map::<u32, PageInfoView>::empty());
    }
}

// ---------------------------------------------------------------------------
// Reading a stream of pages, as a whole.

/// Whether the stream `s` begins with a whole page that the page parser accepts:
/// the capture pattern, stream structure version 0, all the lacing values and
/// body bytes, and a checksum that matches.
pub open spec fn starts_with_page(s: Seq<u8>) -> bool {
    &&& s.len() >= 27
    &&& s.len() >= 27 + s[26] as int
    &&& s.len() >= first_page_len(s)
    &&& s.take(4) == capture_pattern()
    &&& s[4] == 0
    &&& le_value(s.subrange(22, 26)) == crc32_of(
        0,
        header_with_zero_crc(s.take(27)) + s.subrange(27, 27 + s[26] as int) + s.subrange(
            27 + s[26] as int,
            first_page_len(s),
        ),
    )
}

/// The page that the page parser makes of the first page of `s`: `PageParser::new`
/// on its header, `parse_segments` on its lacing values, `parse_packet_data` on its body.
pub open spec fn parsed_page(s: Seq<u8>) -> PageView {
    let nseg = s[26] as int;
    page_with_body(
        segments_parsed(parser_from_header(s.take(27)), s.subrange(27, 27 + nseg)),
        s.subrange(27 + nseg, first_page_len(s)),
    )
}

/// The sequence numbers of the whole pages at the start of `s`, in order, up to
/// the end of `s` or to the first bytes that are not a whole page.
pub open spec fn page_numbers(s: Seq<u8>) -> Seq<u32>
    decreases s.len(),
{
    if s.len() == 0 || !starts_with_page(s) {
        Seq::empty()
    } else {
        seq![parsed_page(s).base.sequence_num] + page_numbers(s.skip(first_page_len(s)))
    }
}

/// Whether each of the whole pages at the start of `s` is flagged the last page
/// of its stream, in order, up to the end of `s` or to the first bytes that are
/// not a whole page.
pub open spec fn page_last_flags(s: Seq<u8>) -> Seq<bool>
    decreases s.len(),
{
    if s.len() == 0 || !starts_with_page(s) {
        Seq::empty()
    } else {
        seq![parsed_page(s).base.last_page] + page_last_flags(s.skip(first_page_len(s)))
    }
}

/// The number of packets that the reader `v` can give back before it needs a page.
pub open spec fn unread(v: ReaderView) -> nat {
    match v.stream_with_stuff {
        Some(s) => if v.page_infos.contains_key(s) {
            let i = v.page_infos[s];
            let r = i.base.packet_positions.len() - i.packet_idx - ends_flag(i.base);
            if r > 0 {
                r as nat
            } else {
                0
            }
        } else {
            0
        },
        None => 0,
    }
}

/// The state of the reader `v` after `read_packet` gave back a packet of stream `s`.
pub open spec fn after_read(v: ReaderView, s: u32) -> ReaderView {
    let i = v.page_infos[s];
    ReaderView {
        page_infos: v.page_infos.insert(s, info_after_read(i)),
        stream_with_stuff: if is_last_in_page(i) {
            None
        } else {
            Some(s)
        },
        ..v
    }
}

/// The packets that a reader in state `v` gives back from the stream of pages
/// `s`: it hands out packets while it has some, and takes the next page of `s`
/// when it has none, until `s` is used up. `None` when a page is not a whole
/// page that the parser accepts, or when the reader refuses it.
pub open spec fn packets_read(v: ReaderView, s: Seq<u8>) -> Option<Seq<crate::PacketView>>
    decreases s.len(), unread(v),
{
    match v.stream_with_stuff {
        Some(sr) => {
            if unread(v) > 0 {
                let i = v.page_infos[sr];
                match packets_read(after_read(v, sr), s) {
                    Some(rest) => Some(seq![next_packet(i, sr)] + rest),
                    None => None,
                }
            } else {
                None
            }
        },
        None => {
            if s.len() == 0 {
                Some(Seq::empty())
            } else if !starts_with_page(s) {
                None
            } else {
                match push_outcome(v, parsed_page(s)) {
                    Some(v2) => packets_read(v2, s.skip(first_page_len(s))),
                    None => None,
                }
            }
        },
    }
}

/// The reader once `j` of the `k` packets that end in the current page of
/// stream `s`, whose reassembly state was `i0`, were read.
pub open spec fn reading_at(
    m: Map<u32, PageInfoView>,
    s: u32,
    i0: PageInfoView,
    j: int,
    k: int,
    hs: bool,
) -> ReaderView {
    ReaderView {
        page_infos: m.insert(s, PageInfoView { packet_idx: j, ..i0 }),
        stream_with_stuff: if j < k {
            Some(s)
        } else {
            None
        },
        has_seeked: hs,
    }
}

/// Reading on from the `j`-th of the `k` packets of a page that does not begin
/// with a continued packet gives back the packets `j` to `k - 1`, then nothing.
proof fn lemma_drain(m: Map<u32, PageInfoView>, s: u32, i0: PageInfoView, j: int, k: int, hs: bool)
    requires
        !i0.base.starts_with_continued,
        0 <= j <= k,
        k + ends_flag(i0.base) == i0.base.packet_positions.len(),
    ensures
        packets_read(reading_at(m, s, i0, j, k, hs), Seq::empty()) matches Some(ps) && ps.len()
            == k - j && forall|t: int|
            0 <= t < ps.len() ==> #[trigger] ps[t] == next_packet(
                PageInfoView { packet_idx: j + t, ..i0 },
                s,
            ),
    decreases k - j,
{
    let v = reading_at(m, s, i0, j, k, hs);
    if j < k {
        let ij = PageInfoView { packet_idx: j, ..i0 };
        assert(v.page_infos[s] == ij);
        assert(unread(v) == k - j);
        assert(after_read(v, s).page_infos =~= reading_at(m, s, i0, j + 1, k, hs).page_infos);
        assert(after_read(v, s) == reading_at(m, s, i0, j + 1, k, hs));
        lemma_drain(m, s, i0, j + 1, k, hs);
        let rest = packets_read(reading_at(m, s, i0, j + 1, k, hs), Seq::empty())->0;
        let ps = seq![next_packet(ij, s)] + rest;
        assert forall|t: int| 0 <= t < ps.len() implies #[trigger] ps[t] == next_packet(
            PageInfoView { packet_idx: j + t, ..i0 },
            s,
        ) by {
            if t > 0 {
                assert(ps[t] == rest[t - 1]);
                assert(PageInfoView { packet_idx: (j + 1) + (t - 1), ..i0 } == PageInfoView {
                    packet_idx: j + t,
                    ..i0
                });
            } else {
                assert(PageInfoView { packet_idx: j + 0, ..i0 } == ij);
            }
        }
    }
}

/// Once a page is pushed that does not begin with a continued packet (or whose
/// continued packet the reader drops after a seek), the reads that follow give
/// back the packets that end in the page, one after the other, then nothing:
/// packet `j` is the body bytes at its position from the lacing values, it is
/// the first packet of the page for `j == 0` and the last for the last `j`, and
/// it carries the page's stream, granule position and checksum.
pub proof fn lemma_reads_after_push(v: ReaderView, p: PageView)
    requires
        v.stream_with_stuff is None,
        page_pushable(p),
        0 <= p.packet_count,
        push_outcome(v, p) is Some,
        !push_outcome(v, p)->0.page_infos[p.stream_serial].base.starts_with_continued,
    ensures
        ({
            let s = p.stream_serial;
            let i = push_outcome(v, p)->0.page_infos[s];
            let pos = i.base.packet_positions;
            let k = pos.len() - ends_flag(i.base);
            packets_read(push_outcome(v, p)->0, Seq::empty()) matches Some(ps) && ps.len() == k
                && forall|j: int|
                0 <= j < k ==> {
                    &&& (#[trigger] ps[j]).data == i.page_body.subrange(
                        pos[j].0,
                        pos[j].0 + pos[j].1,
                    )
                    &&& ps[j].first_in_page == (j == 0)
                    &&& ps[j].last_in_page == (j + 1 == k)
                    &&& ps[j].stream_serial == s
                    &&& ps[j].absgp_page == i.base.absgp
                    &&& ps[j].checksum_page == i.base.checksum
                }
        }),
{
    let s = p.stream_serial;
    let v1 = push_outcome(v, p)->0;
    let i = v1.page_infos[s];
    // The page that the reader took: `p`, or `p` without its continued packet.
    let q = if v.page_infos.contains_key(s) {
        if p.base.starts_with_continued != v.page_infos[s].base.ends_with_continued
            && p.base.starts_with_continued {
            drop_continued_packet(p)
        } else {
            p
        }
    } else if v.has_seeked && p.base.starts_with_continued {
        drop_continued_packet(p)
    } else {
        p
    };
    if p.base.starts_with_continued {
        lemma_drop_continued_consistent(p);
    }
    assert(page_consistent(q));
    let k = q.packet_count;
    assert(i.base == q.base && i.packet_idx == 0);
    assert(v1 == reading_at(v.page_infos, s, i, 0, k, v.has_seeked)) by {
        assert(PageInfoView { packet_idx: 0, ..i } == i);
    }
    lemma_drain(v.page_infos, s, i, 0, k, v.has_seeked);
    let ps = packets_read(v1, Seq::empty())->0;
    assert forall|j: int| 0 <= j < k implies {
        &&& (#[trigger] ps[j]).data == i.page_body.subrange(
            i.base.packet_positions[j].0,
            i.base.packet_positions[j].0 + i.base.packet_positions[j].1,
        )
        &&& ps[j].first_in_page == (j == 0)
        &&& ps[j].last_in_page == (j + 1 == k)
        &&& ps[j].stream_serial == s
        &&& ps[j].absgp_page == i.base.absgp
        &&& ps[j].checksum_page == i.base.checksum
    } by {
        assert(ps[j] == next_packet(PageInfoView { packet_idx: 0 + j, ..i }, s));
    }
}

/// The flags and page fields of the packet `pk` read at index `j` of a page
/// with header fields `b` of stream `s`, `last` if no packet of the page
/// follows it: it is first in the page exactly when it is the first packet that
/// starts in the page (index 1 after the end of a continued packet, else 0),
/// only the packet at index 0 can be first in the stream, it is last in the
/// page exactly when it is the last one read, last in the stream only as the
/// last of the last page, and it carries the page's stream, granule position
/// and checksum.
pub open spec fn page_packet_flags(pk: crate::PacketView, b: PageBaseView, s: u32, j: int, last: bool) -> bool {
    &&& pk.first_in_page == (j == (if b.starts_with_continued {
        1int
    } else {
        0int
    }))
    &&& pk.first_in_stream ==> j == 0
    &&& pk.last_in_page == last
    &&& pk.last_in_stream == (last && b.last_page)
    &&& pk.stream_serial == s
    &&& pk.absgp_page == b.absgp
    &&& pk.checksum_page == b.checksum
}

/// Reading on from the current page of stream `s` gives back its packets that
/// are left, one after the other, and the one at index `j` of the page (counted
/// from the first of the page) is flagged first in the page exactly when it is
/// the first packet that starts in the page.
proof fn lemma_drain_first_flags(v: ReaderView, s: u32)
    requires
        v.stream_with_stuff == Some(s),
        v.page_infos.contains_key(s),
        unread(v) > 0,
    ensures
        ({
            let i = v.page_infos[s];
            packets_read(v, Seq::empty()) matches Some(ps) && ps.len() == unread(v) && forall|
                t: int,
            |
                0 <= t < ps.len() ==> page_packet_flags(
                    #[trigger] ps[t],
                    i.base,
                    s,
                    i.packet_idx + t,
                    t + 1 == ps.len(),
                )
        }),
    decreases unread(v),
{
    let i = v.page_infos[s];
    let v2 = after_read(v, s);
    let ps = packets_read(v, Seq::empty())->0;
    if is_last_in_page(i) {
        assert(v2.stream_with_stuff is None);
        assert(packets_read(v2, Seq::empty()) == Some(Seq::<crate::PacketView>::empty()));
        assert(ps =~= seq![next_packet(i, s)]);
        assert(unread(v) == 1);
    } else {
        assert(v2.page_infos[s] == info_after_read(i));
        assert(unread(v2) == unread(v) - 1);
        lemma_drain_first_flags(v2, s);
        let rest = packets_read(v2, Seq::empty())->0;
        assert(ps =~= seq![next_packet(i, s)] + rest);
        assert forall|t: int| 0 <= t < ps.len() implies page_packet_flags(
            #[trigger] ps[t],
            i.base,
            s,
            i.packet_idx + t,
            t + 1 == ps.len(),
        ) by {
            if t > 0 {
                assert(ps[t] == rest[t - 1]);
                assert(page_packet_flags(rest[t - 1], i.base, s, (i.packet_idx + 1) + (t - 1), (t
                    - 1) + 1 == rest.len()));
            }
        }
    }
}

/// Of the packets read back from one pushed page, exactly the first packet that
/// starts in the page is flagged first in the page: the packet at index 1 when
/// the page the reader kept begins with the end of a continued packet (which is
/// read at index 0), else the packet at index 0. No other packet of the page is
/// flagged. Only the last packet read is last in the page, and every packet
/// carries the page's stream, granule position and checksum.
pub proof fn lemma_first_in_page_once(v: ReaderView, p: PageView)
    requires
        v.stream_with_stuff is None,
        page_pushable(p),
        push_outcome(v, p) is Some,
    ensures
        ({
            let v1 = push_outcome(v, p)->0;
            let b = v1.page_infos[p.stream_serial].base;
            packets_read(v1, Seq::empty()) matches Some(ps) && forall|j: int|
                0 <= j < ps.len() ==> page_packet_flags(
                    #[trigger] ps[j],
                    b,
                    p.stream_serial,
                    j,
                    j + 1 == ps.len(),
                )
        }),
{
    let s = p.stream_serial;
    let v1 = push_outcome(v, p)->0;
    let q = if v.page_infos.contains_key(s) {
        if p.base.starts_with_continued != v.page_infos[s].base.ends_with_continued
            && p.base.starts_with_continued {
            drop_continued_packet(p)
        } else {
            p
        }
    } else if v.has_seeked && p.base.starts_with_continued {
        drop_continued_packet(p)
    } else {
        p
    };
    if p.base.starts_with_continued {
        lemma_drop_continued_consistent(p);
    }
    assert(page_consistent(q));
    let i = v1.page_infos[s];
    assert(i.base == q.base && i.packet_idx == 0);
    if q.packet_count > 0 {
        assert(unread(v1) == q.packet_count);
        lemma_drain_first_flags(v1, s);
    } else {
        assert(v1.stream_with_stuff is None);
        assert(packets_read(v1, Seq::empty()) == Some(Seq::<crate::PacketView>::empty()));
    }
}

/// The reader state after pushing the pages `qs` one after the other, reading
/// nothing in between; `None` if one of them is refused.
pub open spec fn push_pages(v: ReaderView, qs: Seq<PageView>) -> Option<ReaderView>
    decreases qs.len(),
{
    if qs.len() == 0 {
        Some(v)
    } else {
        match push_pages(v, qs.drop_last()) {
            Some(v1) => push_outcome(v1, qs.last()),
            None => None,
        }
    }
}

/// The bytes of the first packet entry of page `q`.
pub open spec fn first_slice(q: PageView) -> Seq<u8> {
    let p = q.base.packet_positions[0];
    q.buf.subrange(p.0, p.0 + p.1)
}

/// The bytes of the first packet entries of the pages `qs`, one after the other.
pub open spec fn joined_first_slices(qs: Seq<PageView>) -> Seq<u8> {
    qs.map_values(|q: PageView| first_slice(q)).flatten_alt()
}

/// A page of stream `s` that holds only a piece of a packet that began on an
/// earlier page and goes on to a later one.
pub open spec fn is_middle_page(q: PageView, s: u32) -> bool {
    &&& q.stream_serial == s
    &&& !q.base.first_page
    &&& q.base.starts_with_continued
    &&& q.base.ends_with_continued
    &&& q.base.packet_positions.len() == 1
    &&& q.packet_count == 0
}

/// The reader holds, for stream `s`, a packet that goes on after the current
/// page, and has given back every packet that ended in that page.
pub open spec fn holds_continued(v: ReaderView, s: u32) -> bool {
    &&& v.stream_with_stuff is None
    &&& !v.has_seeked
    &&& v.page_infos.contains_key(s)
    &&& v.page_infos[s].base.ends_with_continued
    &&& v.page_infos[s].packet_idx + 1 == v.page_infos[s].base.packet_positions.len()
}

/// Pushing pages that only carry a packet on: the reader keeps holding it, and
/// what it holds of it grows by the piece of each page.
proof fn lemma_push_middle_pages(v: ReaderView, s: u32, mids: Seq<PageView>)
    requires
        holds_continued(v, s),
        forall|t: int| 0 <= t < mids.len() ==> #[trigger] is_middle_page(mids[t], s),
    ensures
        push_pages(v, mids) matches Some(v2) && holds_continued(v2, s) && ({
            let i = v.page_infos[s];
            let j = v2.page_infos[s];
            j.overlap.flatten_alt() + packet_slice(j) == i.overlap.flatten_alt() + packet_slice(i)
                + joined_first_slices(mids)
        }),
    decreases mids.len(),
{
    let i = v.page_infos[s];
    if mids.len() == 0 {
        assert(joined_first_slices(mids) =~= Seq::<u8>::empty());
        assert(i.overlap.flatten_alt() + packet_slice(i) + Seq::<u8>::empty()
            =~= i.overlap.flatten_alt() + packet_slice(i));
    } else {
        let front = mids.drop_last();
        let m = mids.last();
        assert forall|t: int| 0 <= t < front.len() implies #[trigger] is_middle_page(front[t], s) by {
            assert(front[t] == mids[t]);
        }
        assert(is_middle_page(m, s)) by {
            assert(mids[mids.len() - 1] == m);
        }
        lemma_push_middle_pages(v, s, front);
        let v1 = push_pages(v, front)->0;
        let j1 = v1.page_infos[s];
        let ov = j1.overlap.push(packet_slice(j1));
        let v2 = with_page(v1, m, ov, trailing_first(j1));
        assert(push_outcome(v1, m) == Some(v2));
        let j2 = v2.page_infos[s];
        assert(j2 == fresh_info(m, ov, trailing_first(j1)));
        assert(ov.drop_last() =~= j1.overlap);
        assert(ov.flatten_alt() == j1.overlap.flatten_alt() + packet_slice(j1));
        assert(packet_slice(j2) == first_slice(m));
        let f = |q: PageView| first_slice(q);
        assert(mids.map_values(f).drop_last() =~= front.map_values(f));
        assert(joined_first_slices(mids) == joined_first_slices(front) + first_slice(m));
        assert(j2.overlap.flatten_alt() + packet_slice(j2) =~= i.overlap.flatten_alt()
            + packet_slice(i) + joined_first_slices(mids));
    }
}

/// A packet that began on an earlier page, went on over pages that only carry
/// it on, and ends on page `last`: once `last` is pushed, the next packet that
/// the reader gives back is that packet, glued together from all its pieces,
/// with the granule position and the checksum of `last`.
pub proof fn lemma_continued_packet_glued(
    v: ReaderView,
    s: u32,
    mids: Seq<PageView>,
    last: PageView,
)
    requires
        holds_continued(v, s),
        forall|t: int| 0 <= t < mids.len() ==> #[trigger] is_middle_page(mids[t], s),
        last.stream_serial == s,
        !last.base.first_page,
        last.base.starts_with_continued,
        last.packet_count >= 1,
        page_consistent(last),
    ensures
        push_pages(v, mids.push(last)) matches Some(v3) && v3.stream_with_stuff == Some(s) && ({
            let i = v.page_infos[s];
            let pk = next_packet(v3.page_infos[s], s);
            &&& pk.data == i.overlap.flatten_alt() + packet_slice(i) + joined_first_slices(mids)
                + first_slice(last)
            &&& pk.absgp_page == last.base.absgp
            &&& pk.checksum_page == last.base.checksum
        }),
{
    lemma_push_middle_pages(v, s, mids);
    let v2 = push_pages(v, mids)->0;
    assert(mids.push(last).drop_last() =~= mids);
    assert(mids.push(last).last() == last);
    let j = v2.page_infos[s];
    let ov = j.overlap.push(packet_slice(j));
    let v3 = with_page(v2, last, ov, trailing_first(j));
    assert(push_outcome(v2, last) == Some(v3));
    let k = v3.page_infos[s];
    assert(k == fresh_info(last, ov, trailing_first(j)));
    assert(glue_needed(k));
    assert(ov.drop_last() =~= j.overlap);
    assert(ov.flatten_alt() == j.overlap.flatten_alt() + packet_slice(j));
}

// ---------------------------------------------------------------------------
// Searching for the next page header.

/// The state of the search for the next page header.
#[derive(Clone, Copy, Debug)]
pub enum UntilPageHeaderReaderMode {
    /// Looking for the capture pattern.
    Searching,
    /// The capture pattern was found; the given number of header bytes is still missing.
    FoundWithNeeded(u8),
    /// The header is complete, but more was read: the reader must seek by the given offset.
    SeekNeeded(i32),
    /// The header is complete and the reader stands right after it.
    Found,
}

/// What the caller of the header search has to do next.
#[derive(Debug)]
pub enum UntilPageHeaderResult {
    /// The stream ended where a page could have begun.
    Eof,
    /// The header was found.
    Found,
    /// More bytes must be read.
    ReadNeeded,
    /// The reader must seek back to the end of the header.
    SeekNeeded,
}

/// Searches the next page header in a stream of bytes, with the capture pattern
/// possibly spread over several reads.
pub struct UntilPageHeaderReader {
    mode: UntilPageHeaderReaderMode,
    /// Capture pattern offset. Needed so that if we only partially
    /// recognized the capture pattern, we later on only check the
    /// remaining part.
    cpt_of: u8,
    /// The return buffer.
    ret_buf: [u8; 27],
    read_amount: usize,
}

/// The model of an `UntilPageHeaderReader`.
pub struct UntilPageHeaderView {
    pub mode: UntilPageHeaderReaderMode,
    pub cpt_of: u8,
    pub ret_buf: Seq<u8>,
    pub read_amount: int,
}

impl View for UntilPageHeaderReader {
    type V = UntilPageHeaderView;

    closed spec fn view(&self) -> UntilPageHeaderView {
        UntilPageHeaderView {
            mode: self.mode,
            cpt_of: self.cpt_of,
            ret_buf: self.ret_buf@,
            read_amount: self.read_amount as int,
        }
    }
}

/// The capture pattern "OggS".
pub open spec fn capture_pattern() -> Seq<u8> {
    seq![0x4fu8, 0x67u8, 0x67u8, 0x53u8]
}

/// How far into the capture pattern the scan is after byte `b`, being `c` far before it.
pub open spec fn cpt_step(c: u8, b: u8) -> u8 {
    if b == 0x4f {
        1
    } else if b == 0x67 && (c == 1 || c == 2) {
        (c + 1) as u8
    } else {
        0
    }
}

/// How far into the capture pattern the scan is after the bytes `s`.
pub open spec fn cpt_after(c: u8, s: Seq<u8>) -> u8
    decreases s.len(),
{
    if s.len() == 0 {
        c
    } else {
        cpt_step(cpt_after(c, s.drop_last()), s.last())
    }
}

/// Byte `i` of `s` completes the capture pattern.
pub open spec fn capture_ends_at(c: u8, s: Seq<u8>, i: int) -> bool {
    &&& 0 <= i < s.len()
    &&& s[i] == 0x53
    &&& cpt_after(c, s.take(i)) == 3
}

/// The size of the read that the search asks for next, or what it reports
/// without reading.
pub open spec fn read_len_spec(v: UntilPageHeaderView) -> Result<int, UntilPageHeaderResult> {
    if v.read_amount < 27 {
        Ok(27 - v.read_amount)
    } else {
        match v.mode {
            UntilPageHeaderReaderMode::Searching => Ok(1024),
            UntilPageHeaderReaderMode::FoundWithNeeded(a) => Ok(a as int),
            UntilPageHeaderReaderMode::SeekNeeded(_) => Err(UntilPageHeaderResult::SeekNeeded),
            UntilPageHeaderReaderMode::Found => Err(UntilPageHeaderResult::Found),
        }
    }
}

/// The header buffer once `fnd` was copied into it at `start`, at most `copy` bytes.
pub open spec fn header_filled(buf: Seq<u8>, start: int, copy: int, fnd: Seq<u8>) -> Seq<u8> {
    Seq::new(
        27,
        |j: int|
            if start <= j < start + copy {
                fnd[j - start]
            } else {
                buf[j]
            },
    )
}

/// A search that has seen nothing yet and reads 27 bytes that begin with the
/// capture pattern finds it at their start: the first byte that completes the
/// pattern is the fourth one, and the header it fills is the 27 bytes read.
pub proof fn lemma_capture_at_start(buf: Seq<u8>, rd: Seq<u8>)
    requires
        buf.len() == 27,
        rd.len() == 27,
        rd.take(4) == capture_pattern(),
    ensures
        capture_ends_at(0, rd, 3),
        forall|j: int| 0 <= j < 3 ==> !capture_ends_at(0, rd, j),
        header_filled(capture_pattern() + buf.skip(4), 3, 24, rd.skip(3)) == rd,
{
    assert(rd[0] == rd.take(4)[0] && rd[1] == rd.take(4)[1] && rd[2] == rd.take(4)[2] && rd[3]
        == rd.take(4)[3]);
    assert(rd.take(3).drop_last() =~= rd.take(2));
    assert(rd.take(2).drop_last() =~= rd.take(1));
    assert(rd.take(1).drop_last() =~= rd.take(0));
    assert(cpt_after(0, rd.take(1)) == 1);
    assert(cpt_after(0, rd.take(2)) == 2);
    assert(cpt_after(0, rd.take(3)) == 3);
    assert(header_filled(capture_pattern() + buf.skip(4), 3, 24, rd.skip(3)) =~= rd);
}

/// What the header search satisfies between calls.
pub open spec fn header_search_wf(v: UntilPageHeaderView) -> bool {
    &&& v.ret_buf.len() == 27
    &&& v.cpt_of <= 3
    &&& 0 <= v.read_amount <= 150 * 1024 + 1024
    &&& v.mode is Searching ==> v.cpt_of <= v.read_amount
    &&& !(v.mode is Searching) ==> v.ret_buf.take(4) == capture_pattern()
    &&& (v.mode is Found || v.mode is SeekNeeded) ==> v.read_amount >= 27
    &&& v.mode matches UntilPageHeaderReaderMode::FoundWithNeeded(n) ==> 1 <= n <= 23 && n
        + v.read_amount >= 27
}

proof fn lemma_cpt_after_bounded(c: u8, s: Seq<u8>)
    requires
        c <= 3,
    ensures
        cpt_after(c, s) <= 3,
        cpt_after(c, s) <= c + s.len(),
    decreases s.len(),
{
    if s.len() > 0 {
        lemma_cpt_after_bounded(c, s.drop_last());
    }
}

/// When the scan, started at the beginning of a stream, is `k` bytes into the
/// capture pattern, the last `k` bytes read are the first `k` of the pattern.
pub proof fn lemma_cpt_after_suffix(s: Seq<u8>)
    ensures
        cpt_after(0, s) <= 3,
        cpt_after(0, s) <= s.len(),
        s.subrange(s.len() - cpt_after(0, s), s.len() as int) == capture_pattern().take(
            cpt_after(0, s) as int,
        ),
    decreases s.len(),
{
    lemma_cpt_after_bounded(0, s);
    if s.len() > 0 {
        let t = s.drop_last();
        lemma_cpt_after_suffix(t);
        let c = cpt_after(0, t);
        let k = cpt_after(0, s);
        if k == 2 || k == 3 {
            assert(s.subrange(s.len() - k, s.len() as int) =~= t.subrange(t.len() - c, t.len() as int).push(
                s.last(),
            ));
            assert(capture_pattern().take(k as int) =~= capture_pattern().take(c as int).push(
                0x67u8,
            ));
        } else if k == 1 {
            assert(s.subrange(s.len() - k, s.len() as int) =~= seq![s.last()]);
            assert(capture_pattern().take(1) =~= seq![0x4fu8]);
        } else {
            assert(s.subrange(s.len() - k, s.len() as int) =~= Seq::<u8>::empty());
        }
    } else {
        assert(s.subrange(0, 0) =~= capture_pattern().take(0));
    }
}

/// Where a scan that started at the beginning of a stream reports the capture
/// pattern complete, the four bytes that end there are the capture pattern.
pub proof fn lemma_capture_found_is_pattern(s: Seq<u8>, i: int)
    requires
        capture_ends_at(0, s, i),
    ensures
        i >= 3,
        s.subrange(i - 3, i + 1) == capture_pattern(),
{
    let t = s.take(i);
    lemma_cpt_after_suffix(t);
    assert(s.subrange(i - 3, i + 1) =~= t.subrange(t.len() - 3, t.len() as int).push(s[i]));
    assert(capture_pattern() =~= capture_pattern().take(3).push(0x53u8));
}

impl UntilPageHeaderReader {
    /// A search that has read nothing yet.
    pub fn new() -> (res: Self)
        ensures
            header_search_wf(res@),
            res@.mode is Searching,
            res@.cpt_of == 0,
            res@.read_amount == 0,
            res@.ret_buf == Seq::new(27, |i: int| 0u8),
    {
        UntilPageHeaderReader {
            mode: UntilPageHeaderReaderMode::Searching,
            cpt_of: 0,
            ret_buf: [0u8; 27],
            read_amount: 0,
        }
    }

    /// Returns Some(off), where off is the offset of the last byte
    /// of the capture pattern if it's found, None if the capture pattern
    /// is not inside the passed slice.
    ///
    /// Changes the capture pattern offset accordingly
    fn check_arr(&mut self, arr: &[u8]) -> (res: Option<usize>)
        requires
            old(self).cpt_of <= 3,
        ensures
            final(self).mode == old(self).mode,
            final(self).ret_buf == old(self).ret_buf,
            final(self).read_amount == old(self).read_amount,
            match res {
                Some(i) => {
                    &&& capture_ends_at(old(self).cpt_of, arr@, i as int)
                    &&& forall|j: int| 0 <= j < i ==> !capture_ends_at(old(self).cpt_of, arr@, j)
                    &&& final(self).cpt_of == 3
                },
                None => {
                    &&& forall|j: int| 0 <= j < arr@.len() ==> !capture_ends_at(
                        old(self).cpt_of,
                        arr@,
                        j,
                    )
                    &&& final(self).cpt_of == cpt_after(old(self).cpt_of, arr@)
                },
            },
    {
        let ghost c0 = self.cpt_of;
        let n = arr.len();
        let mut i: usize = 0;
        while i < n
            invariant
                n == arr@.len(),
                0 <= i <= n,
                c0 == old(self).cpt_of,
                self.cpt_of == cpt_after(c0, arr@.take(i as int)),
                self.cpt_of <= 3,
                self.mode == old(self).mode,
                self.ret_buf == old(self).ret_buf,
                self.read_amount == old(self).read_amount,
                forall|j: int| 0 <= j < i ==> !capture_ends_at(c0, arr@, j),
            decreases n - i,
        {
            let ch = arr[i];
            proof {
                assert(arr@.take(i + 1).drop_last() =~= arr@.take(i as int));
                assert(arr@.take(i as int) == arr@.take(i as int));
            }
            if ch == 0x4fu8 {
                self.cpt_of = 1;
            } else if ch == 0x67u8 && (self.cpt_of == 1 || self.cpt_of == 2) {
                self.cpt_of = self.cpt_of + 1;
            } else if ch == 0x53u8 && self.cpt_of == 3 {
                proof {
                    assert(capture_ends_at(c0, arr@, i as int));
                }
                return Some(i);
            } else {
                self.cpt_of = 0;
            }
            i = i + 1;
        }
        assert(arr@.take(n as int) =~= arr@);
        None
    }

    /// The number of bytes to read next: `Ok(n)` asks the caller to read at most
    /// `n` bytes and to hand them to `do_read`; `Err(r)` reports `r` without a read.
    pub fn read_len(&self) -> (res: Result<usize, UntilPageHeaderResult>)
        ensures
            match (res, read_len_spec(self@)) {
                (Ok(n), Ok(m)) => n == m,
                (Err(r), Err(q)) => r == q,
                _ => false,
            },
    {
        if self.read_amount < 27 {
            // This is an optimisation for the most likely case:
            // the next page directly follows the current read position.
            // Then it would be a waste to read more than the needed amount.
            Ok(27 - self.read_amount)
        } else {
            match self.mode {
                UntilPageHeaderReaderMode::Searching => Ok(1024),
                UntilPageHeaderReaderMode::FoundWithNeeded(amount) => Ok(amount as usize),
                UntilPageHeaderReaderMode::SeekNeeded(_) => Err(UntilPageHeaderResult::SeekNeeded),
                UntilPageHeaderReaderMode::Found => Err(UntilPageHeaderResult::Found),
            }
        }
    }

    /// Takes in the bytes `rd_buf` of one read of the size that `read_len`
    /// asked for, and says whether the header is complete.
    pub fn do_read(&mut self, rd_buf: &[u8]) -> (res: Result<UntilPageHeaderResult, OggReadError>)
        requires
            header_search_wf(old(self)@),
            read_len_spec(old(self)@) matches Ok(n) && rd_buf@.len() <= n,
        ensures
            old(self)@.read_amount <= 150 * 1024 ==> header_search_wf(final(self)@),
            ({
                let v = old(self)@;
                let rd = rd_buf@;
                let ra = v.read_amount + rd.len();
                if rd.len() == 0 {
                    &&& final(self)@ == v
                    &&& if v.read_amount == 0 {
                        res matches Ok(UntilPageHeaderResult::Eof)
                    } else {
                        res matches Err(OggReadError::NoCapturePatternFound)
                    }
                } else if ra > 150 * 1024 {
                    &&& res matches Err(OggReadError::NoCapturePatternFound)
                    &&& final(self)@ == UntilPageHeaderView { read_amount: ra, ..v }
                } else {
                    let (off, needed, buf0) = match v.mode {
                        UntilPageHeaderReaderMode::FoundWithNeeded(n) => (0int, n as int, v.ret_buf),
                        _ => {
                            let off = choose|i: int| capture_ends_at(v.cpt_of, rd, i) && forall|j: int|
                                0 <= j < i ==> !capture_ends_at(v.cpt_of, rd, j);
                            (off, 24int, capture_pattern() + v.ret_buf.skip(4))
                        },
                    };
                    let fnd = rd.skip(off);
                    let copy = if needed < fnd.len() {
                        needed
                    } else {
                        fnd.len() as int
                    };
                    let filled = header_filled(buf0, 27 - needed, copy, fnd);
                    if v.mode is Searching && forall|j: int|
                        0 <= j < rd.len() ==> !capture_ends_at(v.cpt_of, rd, j) {
                        &&& res matches Ok(UntilPageHeaderResult::ReadNeeded)
                        &&& final(self)@ == UntilPageHeaderView {
                            read_amount: ra,
                            cpt_of: cpt_after(v.cpt_of, rd),
                            ..v
                        }
                    } else {
                        &&& final(self)@.read_amount == ra
                        &&& final(self)@.ret_buf == filled
                        &&& final(self)@.cpt_of == (if v.mode is Searching {
                            3
                        } else {
                            v.cpt_of
                        })
                        &&& if fnd.len() == needed {
                            &&& res matches Ok(UntilPageHeaderResult::Found)
                            &&& final(self)@.mode is Found
                        } else if fnd.len() < needed {
                            &&& res matches Ok(UntilPageHeaderResult::ReadNeeded)
                            &&& final(self)@.mode == UntilPageHeaderReaderMode::FoundWithNeeded(
                                (needed - fnd.len()) as u8,
                            )
                        } else {
                            &&& res matches Ok(UntilPageHeaderResult::SeekNeeded)
                            &&& final(self)@.mode == UntilPageHeaderReaderMode::SeekNeeded(
                                (needed - fnd.len()) as i32,
                            )
                        }
                    }
                }
            }),
    {
        let ghost v = self@;
        let rd_len = rd_buf.len();
        if rd_len == 0 {
            // Reached EOF.
            if self.read_amount == 0 {
                // If we have read nothing yet, there is no data
                // but ogg data, meaning the stream ends legally
                // and without corruption.
                return Ok(UntilPageHeaderResult::Eof);
            } else {
                // There is most likely a corruption here.
                // I'm not sure, but the ogg spec doesn't say that
                // random data past the last ogg page is allowed,
                // so we just assume it's not allowed.
                return Err(OggReadError::NoCapturePatternFound);
            }
        }
        self.read_amount = self.read_amount + rd_len;

        // 150 kb gives us a bit of safety: we can survive
        // up to one page with a corrupted capture pattern
        // after having seeked right after a capture pattern
        // of an earlier page.
        let read_amount_max: usize = 150 * 1024;
        if self.read_amount > read_amount_max {
            // Exhaustive searching for the capture pattern
            // has returned no ogg capture pattern.
            return Err(OggReadError::NoCapturePatternFound);
        }

        let (off, needed): (usize, usize) = match self.mode {
            UntilPageHeaderReaderMode::Searching => match self.check_arr(rd_buf) {
                // Capture pattern found
                Some(off) => {
                    self.ret_buf[0] = 0x4fu8;
                    self.ret_buf[1] = 0x67u8;
                    self.ret_buf[2] = 0x67u8;
                    self.ret_buf[3] = 0x53u8;  // (Not actually needed)
                    proof {
                        lemma_cpt_after_bounded(v.cpt_of, rd_buf@.take(off as int));
                    }
                    (off, 24)
                },
                // Nothing found
                None => {
                    proof {
                        lemma_cpt_after_bounded(v.cpt_of, rd_buf@);
                    }
                    return Ok(UntilPageHeaderResult::ReadNeeded);
                },
            },
            UntilPageHeaderReaderMode::FoundWithNeeded(needed) => (0, needed as usize),
            _ => {
                proof {
                    assert(false);
                }
                return Err(OggReadError::NoCapturePatternFound);
            },
        };
        let ghost buf0 = self.ret_buf@;
        proof {
            if v.mode is Searching {
                assert(buf0 =~= capture_pattern() + v.ret_buf.skip(4));
                let o = choose|i: int| capture_ends_at(v.cpt_of, rd_buf@, i) && forall|j: int|
                    0 <= j < i ==> !capture_ends_at(v.cpt_of, rd_buf@, j);
                assert(o == off as int) by {
                    if o < off as int {
                        assert(!capture_ends_at(v.cpt_of, rd_buf@, o));
                    } else if o > off as int {
                        assert(!capture_ends_at(v.cpt_of, rd_buf@, off as int));
                    }
                }
            }
        }

        let fnd_len = rd_len - off;
        let copy_amount = if needed < fnd_len {
            needed
        } else {
            fnd_len
        };
        let start_fill = 27 - needed;
        let ghost cpt_now = self.cpt_of;
        let ghost mode_now = self.mode;
        let ghost ra_now = self.read_amount;
        let mut k: usize = 0;
        while k < copy_amount
            invariant
                0 <= k <= copy_amount,
                copy_amount <= needed,
                copy_amount <= fnd_len,
                fnd_len == rd_len - off,
                rd_len == rd_buf@.len(),
                off < rd_len,
                start_fill == 27 - needed,
                needed <= 24,
                self.cpt_of == cpt_now,
                self.mode == mode_now,
                self.read_amount == ra_now,
                self.ret_buf@ == header_filled(buf0, start_fill as int, k as int, rd_buf@.skip(
                    off as int,
                )),
            decreases copy_amount - k,
        {
            self.ret_buf[start_fill + k] = rd_buf[off + k];
            proof {
                assert(self.ret_buf@ =~= header_filled(
                    buf0,
                    start_fill as int,
                    k + 1,
                    rd_buf@.skip(off as int),
                ));
            }
            k = k + 1;
        }
        proof {
            let fnd = rd_buf@.skip(off as int);
            assert(fnd[0] == rd_buf@[off as int]);
            if v.mode is Searching {
                assert(rd_buf@[off as int] == 0x53);
                assert(cpt_after(v.cpt_of, rd_buf@.take(off as int)) == 3);
                assert(3 <= v.cpt_of + off);
                assert(self.ret_buf@[3] == 0x53);
            } else {
                assert(start_fill >= 4);
            }
            assert(self.ret_buf@.take(4) =~= capture_pattern());
        }
        if fnd_len == needed {
            // Capture pattern found!
            self.mode = UntilPageHeaderReaderMode::Found;
            Ok(UntilPageHeaderResult::Found)
        } else if fnd_len < needed {
            // We still have to read some content.
            let needed_new = needed - copy_amount;
            self.mode = UntilPageHeaderReaderMode::FoundWithNeeded(needed_new as u8);
            Ok(UntilPageHeaderResult::ReadNeeded)
        } else {
            // We have read too much content (exceeding the header).
            // Seek back so that we are at the position
            // right after the header.
            self.mode = UntilPageHeaderReaderMode::SeekNeeded(needed as i32 - fnd_len as i32);
            Ok(UntilPageHeaderResult::SeekNeeded)
        }
    }

    /// The seek that the reader must perform next, if any: by the given offset
    /// from the current position.
    pub fn seek_offset(&self) -> (res: Option<i32>)
        ensures
            match self@.mode {
                UntilPageHeaderReaderMode::SeekNeeded(offs) => res == Some(offs),
                _ => res is None,
            },
    {
        match self.mode {
            UntilPageHeaderReaderMode::SeekNeeded(offs) => Some(offs),
            _ => None,
        }
    }

    /// Takes note that the seek that `seek_offset` asked for was made.
    pub fn do_seek(&mut self) -> (res: UntilPageHeaderResult)
        requires
            header_search_wf(old(self)@),
        ensures
            header_search_wf(final(self)@),
            match old(self)@.mode {
                UntilPageHeaderReaderMode::Searching | UntilPageHeaderReaderMode::FoundWithNeeded(
                    _,
                ) => res is ReadNeeded && final(self)@ == old(self)@,
                _ => res is Found && final(self)@ == UntilPageHeaderView {
                    mode: UntilPageHeaderReaderMode::Found,
                    ..old(self)@
                },
            },
    {
        match self.mode {
            UntilPageHeaderReaderMode::Searching | UntilPageHeaderReaderMode::FoundWithNeeded(
                _,
            ) => UntilPageHeaderResult::ReadNeeded,
            UntilPageHeaderReaderMode::SeekNeeded(_) => {
                self.mode = UntilPageHeaderReaderMode::Found;
                UntilPageHeaderResult::Found
            },
            UntilPageHeaderReaderMode::Found => UntilPageHeaderResult::Found,
        }
    }

    /// The header that was found; it begins with the capture pattern.
    pub fn into_header(self) -> (res: [u8; 27])
        requires
            header_search_wf(self@),
            self@.mode is Found,
        ensures
            res@ == self@.ret_buf,
            res@.take(4) == capture_pattern(),
    {
        self.ret_buf
    }
}

// ---------------------------------------------------------------------------
// Seeking to a granule position: the decisions of the bisection search.

/// Where a reader is to be positioned, as `std::io::SeekFrom` says it.
#[derive(Clone, Copy, Debug, PartialEq, Eq, Structural)]
pub enum SeekTo {
    Start(u64),
    Current(i64),
    End(i64),
}

/// What the granule position search asks of the caller next.
#[derive(Clone, Copy, Debug, PartialEq, Eq, Structural)]
pub enum SeekAction {
    /// Seek the reader and report the new position with `SeekEvent::Position`.
    Seek(SeekTo),
    /// Read the next page at the current position (recapturing if need be)
    /// and report it with `SeekEvent::Page`.
    ReadPage,
    /// The search is over: `true` if the reader stands at the page sought.
    Done(bool),
}

/// What the caller of the granule position search reports back.
pub enum SeekEvent {
    /// The position of the reader after the seek that was asked for.
    Position(u64),
    /// The page read, or `None` at the end of the stream.
    Page(Option<OggPage>),
}

/// Which scan over the pages of the stream is running.
#[derive(Clone, Copy, Debug, PartialEq, Eq, Structural)]
pub enum ScanTarget {
    /// The scan from the start of the stream, for the lower boundary.
    Begin,
    /// The scan near the end of the stream, for the upper boundary.
    End,
    /// The scan from the middle of the boundaries.
    Middle,
}

/// The step of the granule position search.
#[derive(Clone, Copy, Debug, PartialEq, Eq, Structural)]
pub enum SeekState {
    /// Waiting for the position after the seek to the start of the stream.
    SeekingStart,
    /// A scan waits for the position of the next page.
    ScanTell { target: ScanTarget, continued: Option<u64> },
    /// A scan waits for the page at `pos`.
    ScanRead { target: ScanTarget, continued: Option<u64>, pos: u64 },
    /// Waiting for the size of the stream.
    EndTell,
    /// Waiting for the position after the seek to shortly before the end.
    EndSeek,
    /// Waiting for the position after the seek to the middle of the boundaries.
    BisectSeek,
    /// Waiting for the position after the seek back to the lower boundary.
    LinearStart { last_packet_end_pos: u64 },
    /// The linear search waits for the position of the next page.
    LinearTell { last_packet_end_pos: u64 },
    /// The linear search waits for the page at `pos`.
    LinearRead { last_packet_end_pos: u64, pos: u64 },
    /// Waiting for the position after the seek to the page found.
    Finishing,
    /// The search is over.
    Finished(bool),
}

/// The model of a granule position search.
pub struct AbsgpSeekView {
    pub stream_serial: Option<u32>,
    pub pos_goal: u64,
    pub begin_pos: u64,
    pub begin_seq: u32,
    pub end_pos: u64,
    pub end_seq: u32,
    pub state: SeekState,
}

/// The decisions of `PacketReader::seek_absgp`: a bisection over the byte
/// positions of the stream for the first page whose granule position reaches
/// a goal, followed by a linear search once the bisection stalls.
///
/// The search does no I/O itself: every step returns the action that the
/// caller performs, and the caller reports its outcome to the next step.
pub struct AbsgpSeek {
    stream_serial: Option<u32>,
    pos_goal: u64,
    begin_pos: u64,
    begin_seq: u32,
    end_pos: u64,
    end_seq: u32,
    state: SeekState,
}

impl View for AbsgpSeek {
    type V = AbsgpSeekView;

    closed spec fn view(&self) -> AbsgpSeekView {
        AbsgpSeekView {
            stream_serial: self.stream_serial,
            pos_goal: self.pos_goal,
            begin_pos: self.begin_pos,
            begin_seq: self.begin_seq,
            end_pos: self.end_pos,
            end_seq: self.end_seq,
            state: self.state,
        }
    }
}

/// What the search needs to know of a page.
pub struct PageSummary {
    pub stream_serial: u32,
    pub absgp: u64,
    pub sequence_num: u32,
    pub last_page: bool,
    pub has_whole_packet: bool,
    pub has_packet_start: bool,
    pub has_packet_end: bool,
}

/// The summary of a page.
pub open spec fn page_summary(p: PageView) -> PageSummary {
    let n = p.base.packet_positions.len() as int;
    let e = if p.base.ends_with_continued {
        1int
    } else {
        0int
    };
    let b = if p.base.starts_with_continued {
        1int
    } else {
        0int
    };
    PageSummary {
        stream_serial: p.stream_serial,
        absgp: p.base.absgp,
        sequence_num: p.base.sequence_num,
        last_page: p.base.last_page,
        has_whole_packet: n - e - b > 0,
        has_packet_start: n - b > 0,
        has_packet_end: n - e > 0,
    }
}

/// The summary of a page as a model event.
pub open spec fn event_page(e: SeekEvent) -> Option<PageSummary> {
    match e {
        SeekEvent::Page(Some(p)) => Some(page_summary(p@)),
        _ => None,
    }
}

/// The search waits for a page (and not for a position).
pub open spec fn awaits_page(s: SeekState) -> bool {
    s is ScanRead || s is LinearRead
}

/// The event answers what the search waits for.
pub open spec fn event_fits(v: AbsgpSeekView, e: SeekEvent) -> bool {
    &&& !(v.state is Finished)
    &&& match e {
        SeekEvent::Position(_) => !awaits_page(v.state),
        SeekEvent::Page(p) => awaits_page(v.state) && (p matches Some(pg) ==> page_pushable(pg@)),
    }
}

/// The search in state `v` asks for `a`: it waits for the page that it asks to
/// read, or for the position after the seek that it asks for, and it has ended
/// when it says so.
pub open spec fn asks(v: AbsgpSeekView, a: SeekAction) -> bool {
    match a {
        SeekAction::ReadPage => awaits_page(v.state),
        SeekAction::Seek(_) => !awaits_page(v.state) && !(v.state is Finished),
        SeekAction::Done(b) => v.state == SeekState::Finished(b),
    }
}

/// The event `e` answers the action `a`: the position after the seek, or the
/// page read (none at the end of the stream), which the page parser made.
pub open spec fn answers(e: SeekEvent, a: SeekAction) -> bool {
    match (a, e) {
        (SeekAction::Seek(_), SeekEvent::Position(_)) => true,
        (SeekAction::ReadPage, SeekEvent::Page(p)) => p matches Some(pg) ==> page_pushable(pg@),
        _ => false,
    }
}

/// The answer to what the search asked for is an event that the next step takes.
pub proof fn lemma_answer_fits(v: AbsgpSeekView, a: SeekAction, e: SeekEvent)
    requires
        asks(v, a),
        answers(e, a),
    ensures
        event_fits(v, e),
{
}

/// The search ends at position `p`: it seeks there first.
pub open spec fn finish_at(v: AbsgpSeekView, p: u64) -> (AbsgpSeekView, SeekAction) {
    (AbsgpSeekView { state: SeekState::Finishing, ..v }, SeekAction::Seek(SeekTo::Start(p)))
}

/// The bisection step from the boundaries of `v`.
pub open spec fn bisect_spec(v: AbsgpSeekView) -> (AbsgpSeekView, SeekAction) {
    if v.end_seq.wrapping_sub(v.begin_seq) <= 1 {
        finish_at(v, v.end_pos)
    } else {
        let mid = v.begin_pos.wrapping_add(v.end_pos.wrapping_sub(v.begin_pos) / 2);
        (AbsgpSeekView { state: SeekState::BisectSeek, ..v }, SeekAction::Seek(SeekTo::Start(mid)))
    }
}

/// Asks for the position of the reader (a seek by zero).
pub open spec fn tell() -> SeekAction {
    SeekAction::Seek(SeekTo::Current(0))
}

/// What a scan does once it found the page `pg` at `pos` for its target.
pub open spec fn scan_found(v: AbsgpSeekView, target: ScanTarget, pos: u64, pg: PageSummary) -> (
    AbsgpSeekView,
    SeekAction,
) {
    match target {
        ScanTarget::Begin => {
            let v1 = AbsgpSeekView { begin_pos: pos, begin_seq: pg.sequence_num, ..v };
            if v.pos_goal == 0 {
                finish_at(v1, pos)
            } else {
                (AbsgpSeekView { state: SeekState::EndTell, ..v1 }, SeekAction::Seek(SeekTo::End(0)))
            }
        },
        ScanTarget::End => {
            if pg.absgp == v.pos_goal {
                finish_at(v, pos)
            } else if pg.absgp > v.pos_goal {
                bisect_spec(AbsgpSeekView { end_pos: pos, end_seq: pg.sequence_num, ..v })
            } else if pg.last_page {
                (AbsgpSeekView { state: SeekState::Finished(false), ..v }, SeekAction::Done(false))
            } else {
                (
                    AbsgpSeekView {
                        state: SeekState::ScanTell { target: ScanTarget::End, continued: None },
                        ..v
                    },
                    tell(),
                )
            }
        },
        ScanTarget::Middle => {
            if v.end_seq == pg.sequence_num || v.begin_seq == pg.sequence_num {
                (
                    AbsgpSeekView {
                        state: SeekState::LinearStart { last_packet_end_pos: v.begin_pos },
                        ..v
                    },
                    SeekAction::Seek(SeekTo::Start(v.begin_pos)),
                )
            } else if pg.absgp >= v.pos_goal {
                bisect_spec(AbsgpSeekView { end_pos: pos, end_seq: pg.sequence_num, ..v })
            } else {
                bisect_spec(AbsgpSeekView { begin_pos: pos, begin_seq: pg.sequence_num, ..v })
            }
        },
    }
}

/// One step of the search: the state after the event `e`, and the next action.
pub open spec fn seek_step(v: AbsgpSeekView, pos: u64, page: Option<PageSummary>) -> (
    AbsgpSeekView,
    SeekAction,
) {
    match v.state {
        SeekState::SeekingStart => (
            AbsgpSeekView {
                state: SeekState::ScanTell { target: ScanTarget::Begin, continued: None },
                ..v
            },
            tell(),
        ),
        SeekState::ScanTell { target, continued } => (
            AbsgpSeekView { state: SeekState::ScanRead { target, continued, pos }, ..v },
            SeekAction::ReadPage,
        ),
        SeekState::ScanRead { target, continued, pos: at } => match page {
            None => (AbsgpSeekView { state: SeekState::Finished(false), ..v }, SeekAction::Done(false)),
            Some(pg) => {
                let again = |c: Option<u64>|
                    (
                        AbsgpSeekView {
                            state: SeekState::ScanTell { target, continued: c },
                            ..v
                        },
                        tell(),
                    );
                match v.stream_serial {
                    Some(s) if pg.stream_serial != s => again(continued),
                    _ => match continued {
                        None => if pg.has_whole_packet {
                            scan_found(v, target, at, pg)
                        } else if pg.has_packet_start {
                            again(Some(at))
                        } else {
                            again(None)
                        },
                        Some(c) => if pg.has_packet_end {
                            scan_found(v, target, c, pg)
                        } else {
                            again(Some(c))
                        },
                    },
                }
            },
        },
        SeekState::EndTell => {
            let back: u64 = if pos < 204800u64 {
                pos
            } else {
                204800u64
            };
            (
                AbsgpSeekView { state: SeekState::EndSeek, ..v },
                SeekAction::Seek(SeekTo::End((-(back as int)) as i64)),
            )
        },
        SeekState::EndSeek => (
            AbsgpSeekView {
                state: SeekState::ScanTell { target: ScanTarget::End, continued: None },
                ..v
            },
            tell(),
        ),
        SeekState::BisectSeek => (
            AbsgpSeekView {
                state: SeekState::ScanTell { target: ScanTarget::Middle, continued: None },
                ..v
            },
            tell(),
        ),
        SeekState::LinearStart { last_packet_end_pos } => (
            AbsgpSeekView { state: SeekState::LinearTell { last_packet_end_pos }, ..v },
            tell(),
        ),
        SeekState::LinearTell { last_packet_end_pos } => (
            AbsgpSeekView { state: SeekState::LinearRead { last_packet_end_pos, pos }, ..v },
            SeekAction::ReadPage,
        ),
        SeekState::LinearRead { last_packet_end_pos, pos: at } => match page {
            None => (AbsgpSeekView { state: SeekState::Finished(false), ..v }, SeekAction::Done(false)),
            Some(pg) => {
                let again = |l: u64|
                    (
                        AbsgpSeekView {
                            state: SeekState::LinearTell { last_packet_end_pos: l },
                            ..v
                        },
                        tell(),
                    );
                match v.stream_serial {
                    Some(s) if pg.stream_serial != s => again(last_packet_end_pos),
                    _ => if pg.absgp == 0xffff_ffff_ffff_ffffu64 {
                        again(last_packet_end_pos)
                    } else if pg.absgp >= v.pos_goal {
                        finish_at(v, last_packet_end_pos)
                    } else if pg.has_packet_end {
                        again(at)
                    } else {
                        again(last_packet_end_pos)
                    },
                }
            },
        },
        SeekState::Finishing => (
            AbsgpSeekView { state: SeekState::Finished(true), ..v },
            SeekAction::Done(true),
        ),
        SeekState::Finished(b) => (v, SeekAction::Done(b)),
    }
}

/// The search driven by the reports `evs` from the state `v`: each report is
/// the position and the page (none, for a position or at the end of the
/// stream) that `step` takes.
pub open spec fn seek_run(v: AbsgpSeekView, evs: Seq<(u64, Option<PageSummary>)>) -> AbsgpSeekView
    decreases evs.len(),
{
    if evs.len() == 0 {
        v
    } else {
        seek_step(seek_run(v, evs.drop_last()), evs.last().0, evs.last().1).0
    }
}

/// The page `pg` belongs to the stream that the search `v` looks in, and its
/// granule position reaches the goal.
pub open spec fn reaches_goal(v: AbsgpSeekView, pg: PageSummary) -> bool {
    &&& v.stream_serial matches Some(s) ==> pg.stream_serial == s
    &&& pg.absgp >= v.pos_goal
}

/// The report `e` hands over a page that reaches the goal of the search `v`.
pub open spec fn hands_goal_page(v: AbsgpSeekView, e: (u64, Option<PageSummary>)) -> bool {
    e.1 matches Some(pg) && reaches_goal(v, pg)
}

/// The report `e` answers a read of the search `v` with nothing (the end of the
/// stream), or with the last page of the stream, short of the goal.
pub open spec fn ends_short(v: AbsgpSeekView, e: (u64, Option<PageSummary>)) -> bool {
    &&& awaits_page(v.state)
    &&& match e.1 {
        None => true,
        Some(pg) => {
            &&& v.stream_serial matches Some(s) ==> pg.stream_serial == s
            &&& pg.last_page
            &&& pg.absgp < v.pos_goal
        },
    }
}

/// The search has found a page that reaches the goal, and narrows down on it.
pub open spec fn goal_seen(s: SeekState) -> bool {
    match s {
        SeekState::BisectSeek => true,
        SeekState::ScanTell { target, .. } => target == ScanTarget::Middle,
        SeekState::ScanRead { target, .. } => target == ScanTarget::Middle,
        SeekState::LinearStart { .. } => true,
        SeekState::LinearTell { .. } => true,
        SeekState::LinearRead { .. } => true,
        SeekState::Finishing => true,
        SeekState::Finished(b) => b,
        _ => false,
    }
}

/// One step keeps the stream and the goal, enters the narrowing only on a page
/// that reaches the goal, and fails only on a report that ends short.
proof fn lemma_seek_step_outcome(v: AbsgpSeekView, pos: u64, page: Option<PageSummary>)
    ensures
        ({
            let v2 = seek_step(v, pos, page).0;
            &&& v2.stream_serial == v.stream_serial
            &&& v2.pos_goal == v.pos_goal
            &&& goal_seen(v2.state) ==> goal_seen(v.state) || hands_goal_page(v, (pos, page))
            &&& v2.state == SeekState::Finished(false) ==> v.state == SeekState::Finished(false)
                || ends_short(v, (pos, page))
        }),
{
}

proof fn lemma_seek_run_outcome(v0: AbsgpSeekView, evs: Seq<(u64, Option<PageSummary>)>)
    requires
        v0.state == SeekState::SeekingStart,
    ensures
        ({
            let v = seek_run(v0, evs);
            &&& v.stream_serial == v0.stream_serial
            &&& v.pos_goal == v0.pos_goal
            &&& goal_seen(v.state) ==> exists|i: int|
                0 <= i < evs.len() && hands_goal_page(v0, #[trigger] evs[i])
            &&& v.state == SeekState::Finished(false) ==> exists|i: int|
                0 <= i < evs.len() && ends_short(seek_run(v0, #[trigger] evs.take(i)), evs[i])
        }),
    decreases evs.len(),
{
    if evs.len() > 0 {
        let prev = evs.drop_last();
        let n = prev.len() as int;
        lemma_seek_run_outcome(v0, prev);
        let v1 = seek_run(v0, prev);
        let e = evs.last();
        lemma_seek_step_outcome(v1, e.0, e.1);
        assert(evs.take(n) =~= prev);
        assert(evs[n] == e);
        let v = seek_run(v0, evs);
        if goal_seen(v.state) {
            if goal_seen(v1.state) {
                let i = choose|i: int|
                    0 <= i < prev.len() && hands_goal_page(v0, #[trigger] prev[i]);
                assert(evs[i] == prev[i]);
            }
        }
        if v.state == SeekState::Finished(false) {
            if v1.state == SeekState::Finished(false) {
                let i = choose|i: int|
                    0 <= i < prev.len() && ends_short(seek_run(v0, #[trigger] prev.take(i)), prev[i]);
                assert(evs[i] == prev[i]);
                assert(evs.take(i) =~= prev.take(i));
            }
        }
    }
}

/// A granule position search succeeds only after it has been handed a page of
/// its stream whose granule position reaches the goal; it fails only after a
/// read found nothing (the end of the stream) or found the last page of the
/// stream short of the goal.
pub proof fn lemma_search_outcome(v0: AbsgpSeekView, evs: Seq<(u64, Option<PageSummary>)>)
    requires
        v0.state == SeekState::SeekingStart,
    ensures
        seek_run(v0, evs).state == SeekState::Finished(true) ==> exists|i: int|
            0 <= i < evs.len() && hands_goal_page(v0, #[trigger] evs[i]),
        seek_run(v0, evs).state == SeekState::Finished(false) ==> exists|i: int|
            0 <= i < evs.len() && ends_short(seek_run(v0, #[trigger] evs.take(i)), evs[i]),
{
    lemma_seek_run_outcome(v0, evs);
}

/// A page of another stream than the one the search looks in decides nothing:
/// the search keeps both its boundaries and asks for the position of the next
/// page, to read on.
pub proof fn lemma_foreign_page_skipped(v: AbsgpSeekView, pos: u64, pg: PageSummary)
    requires
        awaits_page(v.state),
        v.stream_serial matches Some(s) && pg.stream_serial != s,
    ensures
        ({
            let (v2, a) = seek_step(v, pos, Some(pg));
            &&& a == tell()
            &&& v2.begin_pos == v.begin_pos && v2.begin_seq == v.begin_seq
            &&& v2.end_pos == v.end_pos && v2.end_seq == v.end_seq
            &&& v2.state is ScanTell || v2.state is LinearTell
        }),
{
}

/// The state of the scan from the start of the stream, waiting for a page.
pub open spec fn is_begin_scan(s: SeekState) -> bool {
    match s {
        SeekState::ScanRead { target, .. } => target == ScanTarget::Begin,
        _ => false,
    }
}

/// The end boundary of `v2` is the page `page`, of the stream that `v`
/// searches, and its granule position reaches the goal.
pub open spec fn end_moved_to(v: AbsgpSeekView, v2: AbsgpSeekView, page: Option<PageSummary>) -> bool {
    match page {
        Some(pg) => reaches_goal(v, pg) && v2.end_seq == pg.sequence_num,
        None => false,
    }
}

/// The begin boundary of `v2` is the page `page`, of the stream that `v`
/// searches; its granule position falls short of the goal, unless it is the
/// page that the scan from the start found.
pub open spec fn begin_moved_to(v: AbsgpSeekView, v2: AbsgpSeekView, page: Option<PageSummary>) -> bool {
    match page {
        Some(pg) => {
            &&& v.stream_serial matches Some(s) ==> pg.stream_serial == s
            &&& v2.begin_seq == pg.sequence_num
            &&& pg.absgp < v.pos_goal || is_begin_scan(v.state)
        },
        None => false,
    }
}

/// The boundaries of the bisection move only onto pages of the stream searched:
/// the end boundary onto the page handed with the step, whose granule position
/// reaches the goal; the begin boundary onto the page handed with the step,
/// whose granule position falls short of it (or which is the first page found
/// by the scan from the start).
pub proof fn lemma_boundaries_move_to_stream_pages(
    v: AbsgpSeekView,
    pos: u64,
    page: Option<PageSummary>,
)
    ensures
        ({
            let v2 = seek_step(v, pos, page).0;
            &&& (v2.end_pos != v.end_pos || v2.end_seq != v.end_seq) ==> end_moved_to(v, v2, page)
            &&& (v2.begin_pos != v.begin_pos || v2.begin_seq != v.begin_seq) ==> begin_moved_to(
                v,
                v2,
                page,
            )
        }),
{
}

/// The action `a` seeks to the middle of the boundaries of `v2`: between them,
/// as far from the begin boundary as from the end one, or one byte closer to it.
pub open spec fn seeks_to_middle(v2: AbsgpSeekView, a: SeekAction) -> bool {
    match a {
        SeekAction::Seek(SeekTo::Start(m)) => {
            &&& v2.begin_pos <= m <= v2.end_pos
            &&& 0 <= (v2.end_pos - m) - (m - v2.begin_pos) <= 1
        },
        _ => false,
    }
}

/// A bisection step halves the span between the boundaries, and is taken only
/// while the boundaries are more than one page of the stream apart.
pub proof fn lemma_bisection_halves(v: AbsgpSeekView, pos: u64, page: Option<PageSummary>)
    ensures
        ({
            let (v2, a) = seek_step(v, pos, page);
            v2.state is BisectSeek ==> {
                &&& v2.end_seq.wrapping_sub(v2.begin_seq) > 1
                &&& v2.begin_pos <= v2.end_pos ==> seeks_to_middle(v2, a)
            }
        }),
{
}

/// Where the step from `v`, with the page `page`, to `v2` may end the search,
/// at position `p`: the goal is 0 and the scan from the start found a page of
/// the stream; a page of the stream meets the goal exactly; the bisection
/// boundaries are consecutive pages and `p` is the end boundary; or the linear
/// search read a page of the stream reaching the goal (a page whose granule
/// position is unset, all ones, does not count), and `p` is where the last
/// packet before it ended.
pub open spec fn may_end_at(v: AbsgpSeekView, v2: AbsgpSeekView, page: Option<PageSummary>, p: u64) -> bool {
    let hit = match page {
        Some(pg) => reaches_goal(v, pg),
        None => false,
    };
    let exact = match page {
        Some(pg) => reaches_goal(v, pg) && pg.absgp == v.pos_goal,
        None => false,
    };
    let linear_at = match v.state {
        SeekState::LinearRead { last_packet_end_pos, .. } => p == last_packet_end_pos && (
        page matches Some(pg) && pg.absgp != 0xffff_ffff_ffff_ffffu64),
        _ => false,
    };
    ||| v.pos_goal == 0 && is_begin_scan(v.state) && hit
    ||| exact
    ||| p == v2.end_pos && v2.end_seq.wrapping_sub(v2.begin_seq) <= 1
    ||| linear_at && hit
}

/// The search ends (seeks to the place it found) only where `may_end_at` says:
/// a page past the goal that the scan near the end of the stream finds only
/// becomes the end boundary, unless it directly follows the begin boundary.
pub proof fn lemma_search_ends_only_where_found(
    v: AbsgpSeekView,
    pos: u64,
    page: Option<PageSummary>,
)
    requires
        !(v.state is Finishing),
    ensures
        ({
            let (v2, a) = seek_step(v, pos, page);
            v2.state is Finishing ==> match a {
                SeekAction::Seek(SeekTo::Start(p)) => may_end_at(v, v2, page, p),
                _ => false,
            }
        }),
{
}

impl AbsgpSeek {
    /// Starts a search for the first page of the stream `stream_serial` (of any
    /// stream if `None`) whose granule position is at least `pos_goal`. The first
    /// action is the seek to the start of the stream.
    pub fn new(stream_serial: Option<u32>, pos_goal: u64) -> (res: (AbsgpSeek, SeekAction))
        ensures
            res.0@ == (AbsgpSeekView {
                stream_serial,
                pos_goal,
                begin_pos: 0,
                begin_seq: 0,
                end_pos: 0,
                end_seq: 0,
                state: SeekState::SeekingStart,
            }),
            res.1 == SeekAction::Seek(SeekTo::Start(0)),
            asks(res.0@, res.1),
    {
        (
            AbsgpSeek {
                stream_serial,
                pos_goal,
                begin_pos: 0,
                begin_seq: 0,
                end_pos: 0,
                end_seq: 0,
                state: SeekState::SeekingStart,
            },
            SeekAction::Seek(SeekTo::Start(0)),
        )
    }

    fn finish(&mut self, p: u64) -> (res: SeekAction)
        ensures
            (final(self)@, res) == finish_at(old(self)@, p),
    {
        self.state = SeekState::Finishing;
        SeekAction::Seek(SeekTo::Start(p))
    }

    fn bisect(&mut self) -> (res: SeekAction)
        ensures
            (final(self)@, res) == bisect_spec(old(self)@),
    {
        // Search is done if the two limits are the same page,
        // or consecutive pages.
        if self.end_seq.wrapping_sub(self.begin_seq) <= 1 {
            let p = self.end_pos;
            return self.finish(p);
        }
        // Perform the bisection step
        let pos_to_seek = self.begin_pos.wrapping_add(self.end_pos.wrapping_sub(self.begin_pos) / 2);
        self.state = SeekState::BisectSeek;
        SeekAction::Seek(SeekTo::Start(pos_to_seek))
    }

    fn found_page(&mut self, target: ScanTarget, pos: u64, pg: &OggPage) -> (res: SeekAction)
        requires
            page_pushable(pg@),
        ensures
            (final(self)@, res) == scan_found(old(self)@, target, pos, page_summary(pg@)),
    {
        let absgp = pg.0.bi.absgp;
        let seq = pg.0.bi.sequence_num;
        match target {
            ScanTarget::Begin => {
                self.begin_pos = pos;
                self.begin_seq = seq;
                // If the goal is the beginning, we are done.
                if self.pos_goal == 0 {
                    return self.finish(pos);
                }
                // Seek to the end of the file to get the ending boundary
                self.state = SeekState::EndTell;
                SeekAction::Seek(SeekTo::End(0))
            },
            ScanTarget::End => {
                // If the absgp matches our goal, the seek process is done.
                if absgp == self.pos_goal {
                    return self.finish(pos);
                }
                // If we found a page past our goal, we already
                // found a position that can serve as end post of the search.
                if absgp > self.pos_goal {
                    self.end_pos = pos;
                    self.end_seq = seq;
                    return self.bisect();
                }
                // Stop the search if the stream has ended.
                if pg.0.bi.last_page {
                    self.state = SeekState::Finished(false);
                    return SeekAction::Done(false);
                }
                // If the page is not interesting, seek over it.
                self.state = SeekState::ScanTell { target: ScanTarget::End, continued: None };
                SeekAction::Seek(SeekTo::Current(0))
            },
            ScanTarget::Middle => {
                if self.end_seq == seq || self.begin_seq == seq {
                    // The bisection seek doesn't bring us any further.
                    // Switch to a linear seek to get the last details.
                    let b = self.begin_pos;
                    self.state = SeekState::LinearStart { last_packet_end_pos: b };
                    return SeekAction::Seek(SeekTo::Start(b));
                }
                if absgp >= self.pos_goal {
                    self.end_pos = pos;
                    self.end_seq = seq;
                } else {
                    self.begin_pos = pos;
                    self.begin_seq = seq;
                }
                self.bisect()
            },
        }
    }

    /// Takes in the outcome of the last action and returns the next one.
    pub fn step(&mut self, event: SeekEvent) -> (res: SeekAction)
        requires
            event_fits(old(self)@, event),
        ensures
            (final(self)@, res) == seek_step(
                old(self)@,
                match event {
                    SeekEvent::Position(p) => p,
                    _ => 0,
                },
                event_page(event),
            ),
            asks(final(self)@, res),
    {
        match self.state {
            SeekState::SeekingStart => {
                self.state = SeekState::ScanTell { target: ScanTarget::Begin, continued: None };
                SeekAction::Seek(SeekTo::Current(0))
            },
            SeekState::ScanTell { target, continued } => {
                let pos = match event {
                    SeekEvent::Position(p) => p,
                    _ => 0,
                };
                self.state = SeekState::ScanRead { target, continued, pos };
                SeekAction::ReadPage
            },
            SeekState::ScanRead { target, continued, pos } => {
                let pg = match event {
                    SeekEvent::Page(Some(pg)) => pg,
                    _ => {
                        self.state = SeekState::Finished(false);
                        return SeekAction::Done(false);
                    },
                };
                let other_stream = match self.stream_serial {
                    Some(s) => pg.0.stream_serial != s,
                    None => false,
                };
                // Continue the search if we encounter a
                // page with a different stream serial
                if other_stream {
                    self.state = SeekState::ScanTell { target, continued };
                    return SeekAction::Seek(SeekTo::Current(0));
                }
                match continued {
                    None => {
                        if pg.has_whole_packet() {
                            self.found_page(target, pos, &pg)
                        } else if pg.has_packet_start() {
                            self.state = SeekState::ScanTell { target, continued: Some(pos) };
                            SeekAction::Seek(SeekTo::Current(0))
                        } else {
                            self.state = SeekState::ScanTell { target, continued: None };
                            SeekAction::Seek(SeekTo::Current(0))
                        }
                    },
                    Some(c) => {
                        if pg.has_packet_end() {
                            // We have remembered a packet start,
                            // and have just encountered a packet end.
                            // Return the position of the start with the
                            // info from the end (for the absgp).
                            self.found_page(target, c, &pg)
                        } else {
                            self.state = SeekState::ScanTell { target, continued: Some(c) };
                            SeekAction::Seek(SeekTo::Current(0))
                        }
                    },
                }
            },
            SeekState::EndTell => {
                let end_pos = match event {
                    SeekEvent::Position(p) => p,
                    _ => 0,
                };
                // A page is at most 65 307 bytes long: the last page of a
                // stream that ends with a whole page starts in its last 200 KiB.
                let back: u64 = if end_pos < 200 * 1024 {
                    end_pos
                } else {
                    200 * 1024
                };
                self.state = SeekState::EndSeek;
                SeekAction::Seek(SeekTo::End(-(back as i64)))
            },
            SeekState::EndSeek => {
                self.state = SeekState::ScanTell { target: ScanTarget::End, continued: None };
                SeekAction::Seek(SeekTo::Current(0))
            },
            SeekState::BisectSeek => {
                self.state = SeekState::ScanTell { target: ScanTarget::Middle, continued: None };
                SeekAction::Seek(SeekTo::Current(0))
            },
            SeekState::LinearStart { last_packet_end_pos } => {
                self.state = SeekState::LinearTell { last_packet_end_pos };
                SeekAction::Seek(SeekTo::Current(0))
            },
            SeekState::LinearTell { last_packet_end_pos } => {
                let pos = match event {
                    SeekEvent::Position(p) => p,
                    _ => 0,
                };
                self.state = SeekState::LinearRead { last_packet_end_pos, pos };
                SeekAction::ReadPage
            },
            SeekState::LinearRead { last_packet_end_pos, pos } => {
                let pg = match event {
                    SeekEvent::Page(Some(pg)) => pg,
                    _ => {
                        self.state = SeekState::Finished(false);
                        return SeekAction::Done(false);
                    },
                };
                let other_stream = match self.stream_serial {
                    Some(s) => pg.0.stream_serial != s,
                    None => false,
                };
                let absgp = pg.0.bi.absgp;
                // Continue the search if we encounter a
                // page with a different stream serial,
                // or one with an absgp of -1.
                if other_stream || absgp == 0xffff_ffff_ffff_ffffu64 {
                    self.state = SeekState::LinearTell { last_packet_end_pos };
                    SeekAction::Seek(SeekTo::Current(0))
                } else if absgp >= self.pos_goal {
                    // The page is found if the absgp is >= our goal
                    self.finish(last_packet_end_pos)
                } else {
                    // If we encounter a page with a packet start,
                    // update accordingly.
                    let l = if pg.has_packet_end() {
                        pos
                    } else {
                        last_packet_end_pos
                    };
                    self.state = SeekState::LinearTell { last_packet_end_pos: l };
                    SeekAction::Seek(SeekTo::Current(0))
                }
            },
            SeekState::Finishing => {
                self.state = SeekState::Finished(true);
                SeekAction::Done(true)
            },
            SeekState::Finished(b) => SeekAction::Done(b),
        }
    }
}

// ---------------------------------------------------------------------------
// Decoding pages from a buffer that fills up over time.

#[verifier::external_type_specification]
#[verifier::external_body]
pub struct ExBytesMut(bytes::BytesMut);

/// The bytes that a `bytes::BytesMut` holds.
pub uninterp spec fn bytes_mut_view(b: bytes::BytesMut) -> Seq<u8>;

/// Calls `bytes::BytesMut::len`. Claimed: the result is the number of bytes that
/// the buffer holds.
#[verifier::external_body]
fn bytes_mut_len(b: &bytes::BytesMut) -> (res: usize)
    ensures
        res == bytes_mut_view(*b).len(),
{
    b.len()
}

/// Calls `bytes::BytesMut::split_to(at)` and copies the part split off into a
/// `Vec`. Claimed, as the bytes documentation says of `split_to`: the result holds
/// the first `at` bytes of the buffer and the buffer keeps the rest; `split_to`
/// panics when `at` exceeds the length, which the precondition rules out.
#[verifier::external_body]
fn bytes_mut_split_to(b: &mut bytes::BytesMut, at: usize) -> (res: Vec<u8>)
    requires
        at <= bytes_mut_view(*old(b)).len(),
    ensures
        res@ == bytes_mut_view(*old(b)).take(at as int),
        bytes_mut_view(*final(b)) == bytes_mut_view(*old(b)).skip(at as int),
{
    b.split_to(at).to_vec()
}

/// The step of the page decoder.
pub enum PageDecodeState {
    /// Waiting for the 27 header bytes.
    Head,
    /// Waiting for the given number of lacing values.
    Segments(PageParser, usize),
    /// Waiting for the given number of body bytes.
    PacketData(PageParser, usize),
    /// After an error: the decoder cannot go on.
    InUpdate,
}

/// The model of the step of the page decoder.
pub enum DecodeStateView {
    Head,
    Segments(PageView, nat),
    PacketData(PageView, nat),
    InUpdate,
}

impl View for PageDecodeState {
    type V = DecodeStateView;

    closed spec fn view(&self) -> DecodeStateView {
        match self {
            PageDecodeState::Head => DecodeStateView::Head,
            PageDecodeState::Segments(p, n) => DecodeStateView::Segments(p@, *n as nat),
            PageDecodeState::PacketData(p, n) => DecodeStateView::PacketData(p@, *n as nat),
            PageDecodeState::InUpdate => DecodeStateView::InUpdate,
        }
    }
}

/// The number of bytes the decoder waits for in state `d`.
pub open spec fn needed_size_spec(d: DecodeStateView) -> nat {
    match d {
        DecodeStateView::Head => 27,
        DecodeStateView::Segments(_, n) => n,
        DecodeStateView::PacketData(_, n) => n,
        DecodeStateView::InUpdate => 0,
    }
}

/// What the decoder state satisfies between calls.
pub open spec fn decode_state_wf(d: DecodeStateView) -> bool {
    match d {
        DecodeStateView::Segments(p, n) => p.packet_count == 0 && n <= 255,
        _ => true,
    }
}

/// How many steps are left before the decoder returns a page.
pub open spec fn decode_rank(d: DecodeStateView) -> nat {
    match d {
        DecodeStateView::Head => 3,
        DecodeStateView::Segments(_, _) => 2,
        DecodeStateView::PacketData(_, _) => 1,
        DecodeStateView::InUpdate => 0,
    }
}

/// What decoding the bytes `buf` from state `d` gives: the result, the new state,
/// and the bytes left in the buffer.
pub open spec fn decode_spec(d: DecodeStateView, buf: Seq<u8>) -> (
    Result<Option<PageView>, OggReadError>,
    DecodeStateView,
    Seq<u8>,
)
    decreases decode_rank(d),
{
    let needed = needed_size_spec(d);
    if d is InUpdate || buf.len() < needed {
        (Ok(None), d, buf)
    } else {
        let c = buf.take(needed as int);
        let rest = buf.skip(needed as int);
        match d {
            DecodeStateView::Head => if c[4] != 0 {
                (Err(OggReadError::InvalidStreamStructVer(c[4])), DecodeStateView::InUpdate, rest)
            } else {
                decode_spec(DecodeStateView::Segments(parser_from_header(c), c[26] as nat), rest)
            },
            DecodeStateView::Segments(p, _) => decode_spec(
                DecodeStateView::PacketData(segments_parsed(p, c), lacing_sum(c)),
                rest,
            ),
            DecodeStateView::PacketData(p, _) => if p.checksum != computed_checksum(p, c) {
                (
                    Err(OggReadError::HashMismatch(p.checksum, computed_checksum(p, c))),
                    DecodeStateView::InUpdate,
                    rest,
                )
            } else {
                (Ok(Some(page_with_body(p, c))), DecodeStateView::Head, rest)
            },
            DecodeStateView::InUpdate => (Ok(None), d, buf),
        }
    }
}

/// A buffer that begins with a whole page that the page parser accepts: the
/// decoder, waiting for a header, cuts out of it the page that the parser makes
/// of it, leaves the bytes after the page in the buffer, and waits for the next
/// header.
pub proof fn lemma_decoder_takes_parsed_page(s: Seq<u8>)
    requires
        starts_with_page(s),
    ensures
        decode_spec(DecodeStateView::Head, s) == (
            Ok::<Option<PageView>, OggReadError>(Some(parsed_page(s))),
            DecodeStateView::Head,
            s.skip(first_page_len(s)),
        ),
{
    let nseg = s[26] as int;
    let n = first_page_len(s);
    let c = s.take(27);
    let rest1 = s.skip(27);
    let segs = s.subrange(27, 27 + nseg);
    let body = s.subrange(27 + nseg, n);
    assert(c[4] == s[4] && c[26] == s[26]);
    assert(rest1.take(nseg) =~= segs);
    let rest2 = rest1.skip(nseg);
    assert(rest2 =~= s.skip(27 + nseg));
    assert(rest2.take(lacing_sum(segs) as int) =~= body);
    assert(rest2.skip(lacing_sum(segs) as int) =~= s.skip(n));
    let p = segments_parsed(parser_from_header(c), segs);
    assert(c.subrange(22, 26) =~= s.subrange(22, 26));
    crate::le::lemma_le_value4(s.subrange(22, 26));
    assert(p.checksum == computed_checksum(p, body));
    assert(decode_spec(DecodeStateView::PacketData(p, lacing_sum(segs)), rest2) == (
        Ok::<Option<PageView>, OggReadError>(Some(page_with_body(p, body))),
        DecodeStateView::Head,
        s.skip(n),
    ));
    assert(decode_spec(DecodeStateView::Segments(parser_from_header(c), c[26] as nat), rest1)
        == decode_spec(DecodeStateView::PacketData(p, lacing_sum(segs)), rest2));
}

/// The decoder never gives back a page whose stored checksum is not the CRC-32
/// of its bytes: waiting for the body of the page parsed into `p` (its header
/// and lacing values), with the bytes `buf` at hand, it gives back a page only
/// when the stored checksum is the CRC-32 of the header with the checksum field
/// cleared, the lacing values and the body; and when the body is complete but
/// the checksum differs it fails with the stored and the computed checksum.
pub proof fn lemma_decoded_page_checksum(p: PageView, n: nat, buf: Seq<u8>)
    ensures
        ({
            let body = buf.take(n as int);
            let crc = crc32_of(0, header_with_zero_crc(p.header) + p.buf + body);
            let r = decode_spec(DecodeStateView::PacketData(p, n), buf).0;
            &&& r matches Ok(Some(pg)) ==> pg.checksum == crc && pg.checksum == p.checksum
                && pg.buf == body
            &&& buf.len() >= n ==> (r is Ok <==> p.checksum == crc)
            &&& buf.len() >= n && p.checksum != crc ==> r == Err::<Option<PageView>, OggReadError>(
                OggReadError::HashMismatch(p.checksum, crc),
            )
        }),
{
}

/// A buffer holding a whole page from its header on: the decoder, waiting for a
/// header, gives the page back exactly when the checksum stored in the header
/// is the CRC-32 of the page's bytes with the checksum field cleared, and fails
/// with the stored and the computed checksum when it is not.
pub proof fn lemma_decoder_checks_whole_page(buf: Seq<u8>)
    requires
        buf.len() >= 27,
        buf[4] == 0,
        buf.len() >= 27 + buf[26] + lacing_sum(buf.subrange(27, 27 + buf[26] as int)),
    ensures
        ({
            let nseg = buf[26] as int;
            let n = 27 + nseg + lacing_sum(buf.subrange(27, 27 + nseg));
            let stored = le_value(buf.subrange(22, 26));
            let crc = crc32_of(0, header_with_zero_crc(buf.take(27)) + buf.subrange(27, n));
            let r = decode_spec(DecodeStateView::Head, buf).0;
            &&& r is Ok <==> stored == crc
            &&& r matches Ok(Some(pg)) ==> pg.checksum == crc
            &&& stored != crc ==> r == Err::<Option<PageView>, OggReadError>(
                OggReadError::HashMismatch(stored as u32, crc),
            )
        }),
{
    let nseg = buf[26] as int;
    let c = buf.take(27);
    let rest1 = buf.skip(27);
    let segs = buf.subrange(27, 27 + nseg);
    let n = 27 + nseg + lacing_sum(segs);
    assert(c[4] == buf[4] && c[26] == buf[26]);
    assert(rest1.take(nseg) =~= segs);
    let rest2 = rest1.skip(nseg);
    let body = buf.subrange(27 + nseg, n);
    assert(rest2.take(lacing_sum(segs) as int) =~= body);
    let p = segments_parsed(parser_from_header(c), segs);
    assert(c.subrange(22, 26) =~= buf.subrange(22, 26));
    crate::le::lemma_le_value4(buf.subrange(22, 26));
    assert(header_with_zero_crc(c) + segs + body =~= header_with_zero_crc(c) + buf.subrange(27, n));
    assert(decode_spec(DecodeStateView::Segments(parser_from_header(c), c[26] as nat), rest1)
        == decode_spec(DecodeStateView::PacketData(p, lacing_sum(segs)), rest2));
}

impl PageDecodeState {
    /// The number of bytes the decoder waits for.
    fn needed_size(&self) -> (res: usize)
        requires
            !(self@ is InUpdate),
        ensures
            res == needed_size_spec(self@),
    {
        match self {
            PageDecodeState::Head => 27,
            PageDecodeState::Segments(_, s) => *s,
            PageDecodeState::PacketData(_, s) => *s,
            PageDecodeState::InUpdate => 0,
        }
    }
}

/// Async page reading functionality: cuts whole pages out of a buffer that
/// the bytes of a stream are appended to.
pub struct PageDecoder {
    state: PageDecodeState,
}

impl View for PageDecoder {
    type V = DecodeStateView;

    closed spec fn view(&self) -> DecodeStateView {
        self.state@
    }
}

impl PageDecoder {
    /// A decoder that waits for the header of a page.
    pub fn new() -> (res: Self)
        ensures
            res@ == DecodeStateView::Head,
    {
        PageDecoder { state: PageDecodeState::Head }
    }

    /// Whether the decoder can go on: it cannot after an error.
    pub fn can_decode(&self) -> (res: bool)
        ensures
            res == (!(self@ is InUpdate) && decode_state_wf(self@)),
    {
        match &self.state {
            PageDecodeState::Head => true,
            PageDecodeState::Segments(p, n) => p.packet_count == 0 && *n <= 255,
            PageDecodeState::PacketData(_, _) => true,
            PageDecodeState::InUpdate => false,
        }
    }

    /// Takes the next page out of `buf` if the buffer holds the rest of it;
    /// returns `Ok(None)` if more bytes are needed. After an error the decoder
    /// cannot be used any more.
    pub fn decode(&mut self, buf: &mut bytes::BytesMut) -> (res: Result<Option<OggPage>, OggReadError>)
        requires
            !(old(self)@ is InUpdate),
            decode_state_wf(old(self)@),
        ensures
            decode_state_wf(final(self)@),
            ({
                let (r, d, rest) = decode_spec(old(self)@, bytes_mut_view(*old(buf)));
                &&& final(self)@ == d
                &&& bytes_mut_view(*final(buf)) == rest
                &&& match (res, r) {
                    (Ok(Some(page)), Ok(Some(pv))) => page@ == pv,
                    (Ok(None), Ok(None)) => true,
                    (Err(e), Err(f)) => e == f,
                    _ => false,
                }
            }),
    {
        let ghost goal = decode_spec(self@, bytes_mut_view(*buf));
        loop
            invariant
                !(self@ is InUpdate),
                decode_state_wf(self@),
                decode_spec(self@, bytes_mut_view(*buf)) == goal,
                goal == decode_spec(old(self)@, bytes_mut_view(*old(buf))),
            decreases decode_rank(self@),
        {
            let needed_size = self.state.needed_size();
            if bytes_mut_len(buf) < needed_size {
                return Ok(None);
            }
            let consumed_buf = bytes_mut_split_to(buf, needed_size);
            let mut st = PageDecodeState::InUpdate;
            std::mem::swap(&mut st, &mut self.state);
            match st {
                PageDecodeState::Head => {
                    let mut hdr_buf: [u8; 27] = [0u8; 27];
                    let mut k: usize = 0;
                    while k < 27
                        invariant
                            0 <= k <= 27,
                            consumed_buf@.len() == 27,
                            forall|j: int| 0 <= j < k ==> hdr_buf@[j] == consumed_buf@[j],
                        decreases 27 - k,
                    {
                        hdr_buf[k] = consumed_buf[k];
                        k = k + 1;
                    }
                    assert(hdr_buf@ =~= consumed_buf@);
                    match PageParser::new(hdr_buf) {
                        Ok((pg_prs, n)) => {
                            self.state = PageDecodeState::Segments(pg_prs, n);
                        },
                        Err(e) => {
                            return Err(e);
                        },
                    }
                },
                PageDecodeState::Segments(mut pg_prs, _) => {
                    proof {
                        lemma_lacing_split(consumed_buf@);
                    }
                    let new_needed_len = pg_prs.parse_segments(consumed_buf);
                    self.state = PageDecodeState::PacketData(pg_prs, new_needed_len);
                },
                PageDecodeState::PacketData(pg_prs, _) => {
                    match pg_prs.parse_packet_data(consumed_buf) {
                        Ok(page) => {
                            self.state = PageDecodeState::Head;
                            return Ok(Some(page));
                        },
                        Err(e) => {
                            return Err(e);
                        },
                    }
                },
                PageDecodeState::InUpdate => {
                    return Ok(None);
                },
            }
        }
    }

    /// Decoding at the end of the stream: as `decode`.
    pub fn decode_eof(&mut self, buf: &mut bytes::BytesMut) -> (res: Result<
        Option<OggPage>,
        OggReadError,
    >)
        requires
            !(old(self)@ is InUpdate),
            decode_state_wf(old(self)@),
        ensures
            decode_state_wf(final(self)@),
            ({
                let (r, d, rest) = decode_spec(old(self)@, bytes_mut_view(*old(buf)));
                &&& final(self)@ == d
                &&& bytes_mut_view(*final(buf)) == rest
                &&& match (res, r) {
                    (Ok(Some(page)), Ok(Some(pv))) => page@ == pv,
                    (Ok(None), Ok(None)) => true,
                    (Err(e), Err(f)) => e == f,
                    _ => false,
                }
            }),
    {
        // Ugly hack for "bytes remaining on stream" error
        return self.decode(buf);
    }
}
} // verus!
