//! Writing logic: packing packets into pages, computing the page checksums and
//! framing the pages.

use vstd::prelude::*;
use vstd::seq_lib::lemma_flatten_alt_concat;
use std::collections::HashMap;
use crate::backports::u32_v1_32;
use crate::crc::{crc32_of, lemma_crc32_concat, vorbis_crc32_update};
use crate::le::{lemma_u32_le_roundtrip, lemma_u64_le_roundtrip, le_value, u32_le_seq, u64_le_seq, u64_to_le_bytes};
use crate::reading::{capture_pattern, header_with_zero_crc, lacing_sum, lemma_lacing_sum_concat, lemma_valid_pages_concat, valid_pages};

verus! {

broadcast use vstd::std_specs::hash::group_hash_axioms;

/// Specifies whether to end something with the write of the packet.
///
/// If you want to end a stream you need to inform the Ogg `PacketWriter`
/// about this. This is the enum to do so.
///
/// Also, Codecs sometimes have special requirements to put
/// the first packet of the whole stream into its own page.
/// The `EndPage` variant can be used for this.
#[derive(PartialEq, Eq, Structural, Clone, Copy, Debug)]
pub enum PacketWriteEndInfo {
    /// No ends here, just a normal packet
    NormalPacket,
    /// Force-end the current page
    EndPage,
    /// End the whole logical stream.
    EndStream,
}

/// Where the writer sends the bytes of the pages it emits. A write may fail
/// (the underlying output refused it); the writer then stops at once and keeps
/// the page it was emitting, so that it can be written again.
pub trait PageSink {
    /// Sends `data`; returns whether it was taken.
    fn write_bytes(&mut self, data: &[u8]) -> (ok: bool);
}

/// A sink that keeps the bytes in memory: it never fails.
impl PageSink for Vec<u8> {
    fn write_bytes(&mut self, data: &[u8]) -> (ok: bool)
        ensures
            ok,
            final(self)@ == old(self)@ + data@,
    {
        let mut more = vstd::slice::slice_to_vec(data);
        self.append(&mut more);
        true
    }
}

/// The bytes that the writes `calls` handed to a sink, one after the other.
/// Each write is its data and whether the sink took it.
pub open spec fn handed(calls: Seq<(Seq<u8>, bool)>) -> Seq<u8>
    decreases calls.len(),
{
    if calls.len() == 0 {
        Seq::empty()
    } else {
        handed(calls.drop_last()) + calls.last().0
    }
}

/// Every write of `calls` was taken.
pub open spec fn all_taken(calls: Seq<(Seq<u8>, bool)>) -> bool {
    forall|i: int| 0 <= i < calls.len() ==> #[trigger] calls[i].1
}

/// No write of `calls` follows one that was refused.
pub open spec fn stops_at_refusal(calls: Seq<(Seq<u8>, bool)>) -> bool {
    forall|i: int| 0 <= i < calls.len() - 1 ==> #[trigger] calls[i].1
}

/// The writes `calls` of an operation that meant to send `expected` and
/// reports `ok`: `ok` exactly when every write was taken, nothing written after
/// a refusal, all of `expected` handed over when `ok`, and a beginning of it
/// in any case.
pub open spec fn sent_as(calls: Seq<(Seq<u8>, bool)>, ok: bool, expected: Seq<u8>) -> bool {
    &&& ok == all_taken(calls)
    &&& stops_at_refusal(calls)
    &&& ok ==> handed(calls) == expected
    &&& handed(calls).is_prefix_of(expected)
}

proof fn lemma_handed_concat(a: Seq<(Seq<u8>, bool)>, b: Seq<(Seq<u8>, bool)>)
    ensures
        handed(a + b) == handed(a) + handed(b),
    decreases b.len(),
{
    if b.len() == 0 {
        assert(a + b =~= a);
        assert(handed(a) + handed(b) =~= handed(a));
    } else {
        lemma_handed_concat(a, b.drop_last());
        assert((a + b).drop_last() =~= a + b.drop_last());
        assert((a + b).last() == b.last());
        assert(handed(a) + (handed(b.drop_last()) + b.last().0) =~= (handed(a) + handed(
            b.drop_last(),
        )) + b.last().0);
    }
}

/// Nothing sent: nothing meant to be.
proof fn lemma_sent_nothing()
    ensures
        sent_as(Seq::empty(), true, Seq::empty()),
{
    assert(Seq::<u8>::empty().is_prefix_of(Seq::empty()));
}

/// Writes that all went through, followed by the writes of a second operation.
proof fn lemma_sent_seq(
    a: Seq<(Seq<u8>, bool)>,
    ea: Seq<u8>,
    b: Seq<(Seq<u8>, bool)>,
    okb: bool,
    eb: Seq<u8>,
)
    requires
        sent_as(a, true, ea),
        sent_as(b, okb, eb),
    ensures
        sent_as(a + b, okb, ea + eb),
{
    lemma_handed_concat(a, b);
    let c = a + b;
    assert(all_taken(c) == all_taken(b)) by {
        if all_taken(b) {
            assert forall|i: int| 0 <= i < c.len() implies #[trigger] c[i].1 by {
                if i >= a.len() {
                    assert(c[i] == b[i - a.len()]);
                }
            }
        } else {
            let j = choose|j: int| 0 <= j < b.len() && !b[j].1;
            assert(c[a.len() + j] == b[j]);
        }
    }
    assert forall|i: int| 0 <= i < c.len() - 1 implies #[trigger] c[i].1 by {
        if i >= a.len() {
            assert(c[i] == b[i - a.len()]);
        }
    }
    let h = handed(b);
    assert(h =~= eb.subrange(0, h.len() as int));
    assert(handed(c) =~= (ea + eb).subrange(0, handed(c).len() as int));
}

/// A refused operation that meant to send a beginning of `e2`.
proof fn lemma_sent_within(a: Seq<(Seq<u8>, bool)>, e1: Seq<u8>, e2: Seq<u8>)
    requires
        sent_as(a, false, e1),
        e1.is_prefix_of(e2),
    ensures
        sent_as(a, false, e2),
{
    let h = handed(a);
    assert(h =~= e2.subrange(0, h.len() as int)) by {
        assert forall|i: int| 0 <= i < h.len() implies h[i] == e2[i] by {
            assert(h[i] == e1.subrange(0, h.len() as int)[i]);
            assert(e1[i] == e2.subrange(0, e1.len() as int)[i]);
        }
    }
}

/// Hands `data` to `sink`: the one write made.
fn send<S: PageSink>(sink: &mut S, data: &[u8]) -> (res: (bool, Ghost<Seq<(Seq<u8>, bool)>>))
    ensures
        res.1@ == seq![(data@, res.0)],
        sent_as(res.1@, res.0, data@),
{
    let ok = sink.write_bytes(data);
    let ghost calls = seq![(data@, ok)];
    proof {
        assert(calls.drop_last() =~= Seq::<(Seq<u8>, bool)>::empty());
        assert(handed(calls.drop_last()) =~= Seq::<u8>::empty());
        assert(handed(calls) =~= data@);
        assert(calls[0].1 == ok);
        assert(all_taken(calls) == ok);
        assert(handed(calls).is_prefix_of(data@)) by {
            assert(data@ =~= data@.subrange(0, data@.len() as int));
        }
    }
    (ok, Ghost(calls))
}

/// The model of the page that is being assembled for one logical bitstream.
pub struct PageValuesView {
    pub first_page: bool,
    pub sequence_num: u32,
    /// The lacing values of the page so far.
    pub lacing: Seq<u8>,
    /// The packets that have data in the page, with their granule positions.
    pub data: Seq<(Seq<u8>, u64)>,
    /// Where the last packet stops in this page, if it continues on the next one.
    pub this_overflow: Option<int>,
    /// Where the first packet starts in this page, if it began on an earlier one.
    pub last_overflow: Option<int>,
}

struct CurrentPageValues {
    /// `true` if this page is the first one in the logical bitstream
    first_page: bool,
    /// Page counter of the current page
    /// Increased for every page
    sequence_num: u32,
    /// Points to the first unwritten position in cur_pg_lacing.
    segment_cnt: u8,
    cur_pg_lacing: [u8; 255],
    /// The data and the absgp's of the packets
    cur_pg_data: Vec<(Vec<u8>, u64)>,
    /// Some(offs), if the last packet
    /// couldn't make it fully into this page, and
    /// has to be continued in the next page.
    ///
    /// `offs` should point to the first idx in
    /// cur_pg_data[last] that should NOT be written
    /// in this page anymore.
    ///
    /// None if all packets can be written nicely.
    pck_this_overflow_idx: Option<usize>,
    /// Some(offs), if the first packet
    /// couldn't make it fully into the last page, and
    /// has to be continued in this page.
    ///
    /// `offs` should point to the first idx in cur_pg_data[0]
    /// that hasn't been written.
    ///
    /// None if all packets can be written nicely.
    pck_last_overflow_idx: Option<usize>,
}

/// The view of an optional offset.
pub open spec fn opt_view(o: Option<usize>) -> Option<int> {
    match o {
        Some(x) => Some(x as int),
        None => None,
    }
}

/// The view of the packets of a page.
pub open spec fn data_view(d: Seq<(Vec<u8>, u64)>) -> Seq<(Seq<u8>, u64)> {
    d.map_values(|e: (Vec<u8>, u64)| (e.0@, e.1))
}

impl View for CurrentPageValues {
    type V = PageValuesView;

    closed spec fn view(&self) -> PageValuesView {
        PageValuesView {
            first_page: self.first_page,
            sequence_num: self.sequence_num,
            lacing: self.cur_pg_lacing@.take(self.segment_cnt as int),
            data: data_view(self.cur_pg_data@),
            this_overflow: opt_view(self.pck_this_overflow_idx),
            last_overflow: opt_view(self.pck_last_overflow_idx),
        }
    }
}

// ---------------------------------------------------------------------------
// The page that the writer emits.

/// The first byte of packet `i` that belongs to the page.
pub open spec fn piece_start(pg: PageValuesView, i: int) -> int {
    match pg.last_overflow {
        Some(x) if i == 0 => x,
        _ => 0,
    }
}

/// The first byte of packet `i` that no longer belongs to the page.
pub open spec fn piece_end(pg: PageValuesView, i: int) -> int {
    match pg.this_overflow {
        Some(x) if i + 1 == pg.data.len() => x,
        _ => pg.data[i].0.len() as int,
    }
}

/// The bytes of packet `i` that the page carries.
pub open spec fn piece(pg: PageValuesView, i: int) -> Seq<u8> {
    pg.data[i].0.subrange(piece_start(pg, i), piece_end(pg, i))
}

/// The pieces of packets that the page carries, in order.
pub open spec fn page_pieces(pg: PageValuesView) -> Seq<Seq<u8>> {
    Seq::new(pg.data.len(), |i: int| piece(pg, i))
}

/// The body of the page.
pub open spec fn page_body(pg: PageValuesView) -> Seq<u8> {
    page_pieces(pg).flatten_alt()
}

/// Every piece lies within its packet.
pub open spec fn pieces_valid(pg: PageValuesView) -> bool {
    forall|i: int|
        0 <= i < pg.data.len() ==> 0 <= #[trigger] piece_start(pg, i) <= piece_end(pg, i)
            <= pg.data[i].0.len()
}

/// The number of packets that end in the page.
pub open spec fn finishing_count(pg: PageValuesView) -> int {
    if pg.this_overflow is Some {
        pg.data.len() - 1
    } else {
        pg.data.len() as int
    }
}

/// The granule position of the page: that of the last packet that ends in it,
/// or all ones when none does.
pub open spec fn page_granule(pg: PageValuesView) -> u64 {
    let k = finishing_count(pg);
    if k >= 1 {
        pg.data[k - 1].1
    } else {
        0xffff_ffff_ffff_ffffu64
    }
}

/// The header type flags of the page.
pub open spec fn page_flags(pg: PageValuesView, last_page: bool) -> u8 {
    ((if pg.last_overflow is Some { 1int } else { 0int }) + (if pg.first_page {
        2int
    } else {
        0int
    }) + (if last_page {
        4int
    } else {
        0int
    })) as u8
}

/// The 27 header bytes of the page, with `crc` in the checksum field.
#[verifier::opaque]
pub open spec fn page_header(serial: u32, pg: PageValuesView, last_page: bool, crc: u32) -> Seq<
    u8,
> {
    seq![0x4fu8, 0x67u8, 0x67u8, 0x53u8, 0u8, page_flags(pg, last_page)] + u64_le_seq(
        page_granule(pg),
    ) + u32_le_seq(serial) + u32_le_seq(pg.sequence_num) + u32_le_seq(crc) + seq![
        pg.lacing.len() as u8,
    ]
}

/// The checksum of the page.
pub open spec fn page_checksum(serial: u32, pg: PageValuesView, last_page: bool) -> u32 {
    crc32_of(0, page_header(serial, pg, last_page, 0) + pg.lacing + page_body(pg))
}

/// The bytes of the page as the writer emits it.
#[verifier::opaque]
pub open spec fn page_bytes(serial: u32, pg: PageValuesView, last_page: bool) -> Seq<u8> {
    page_header(serial, pg, last_page, page_checksum(serial, pg, last_page)) + pg.lacing
        + page_body(pg)
}

/// The state for the next page once a page was emitted.
pub open spec fn page_reset(pg: PageValuesView) -> PageValuesView {
    PageValuesView {
        first_page: false,
        sequence_num: (pg.sequence_num + 1) as u32,
        lacing: Seq::empty(),
        data: if pg.this_overflow is Some {
            seq![pg.data.last()]
        } else {
            Seq::empty()
        },
        last_overflow: pg.this_overflow,
        this_overflow: None,
    }
}

// ---------------------------------------------------------------------------
// The lacing values agree with the body of the page.

/// The lacing values for a piece of `m` bytes of a packet: one 255 for every full
/// segment, then, if the packet ends in the page, the size of the last segment.
pub open spec fn piece_lacing(m: int, complete: bool) -> Seq<u8> {
    Seq::new((m / 255) as nat, |t: int| 255u8) + (if complete {
        seq![(m % 255) as u8]
    } else {
        Seq::<u8>::empty()
    })
}

/// Whether packet `i` of the page ends in it.
pub open spec fn piece_complete(pg: PageValuesView, i: int) -> bool {
    !(i + 1 == pg.data.len() && pg.this_overflow is Some)
}

/// The lacing values of the first `k` pieces of the page.
pub open spec fn lacings_upto(pg: PageValuesView, k: int) -> Seq<u8>
    decreases k,
{
    if k <= 0 {
        Seq::empty()
    } else {
        lacings_upto(pg, k - 1) + piece_lacing(piece(pg, k - 1).len() as int, piece_complete(pg, k - 1))
    }
}

/// The lacing values of the page are those of its pieces, and a packet that
/// continues on the next page fills its segments.
pub open spec fn lacing_matches(pg: PageValuesView) -> bool {
    &&& pg.lacing == lacings_upto(pg, pg.data.len() as int)
    &&& pg.this_overflow is Some ==> piece(pg, pg.data.len() - 1).len() % 255 == 0
}

proof fn lemma_full_segments_sum(q: nat)
    ensures
        lacing_sum(Seq::new(q, |t: int| 255u8)) == 255 * q,
    decreases q,
{
    if q > 0 {
        lemma_full_segments_sum((q - 1) as nat);
        assert(Seq::new(q, |t: int| 255u8).drop_last() =~= Seq::new((q - 1) as nat, |t: int| 255u8));
    }
}

/// The lacing values of a piece add up to its size.
pub proof fn lemma_piece_lacing_sum(m: int, complete: bool)
    requires
        m >= 0,
        complete || m % 255 == 0,
    ensures
        lacing_sum(piece_lacing(m, complete)) == m,
        piece_lacing(m, complete).len() == m / 255 + (if complete { 1int } else { 0int }),
{
    let full = Seq::new((m / 255) as nat, |t: int| 255u8);
    lemma_full_segments_sum((m / 255) as nat);
    let tail = if complete {
        seq![(m % 255) as u8]
    } else {
        Seq::<u8>::empty()
    };
    lemma_lacing_sum_concat(full, tail);
    if complete {
        assert(tail.drop_last() =~= Seq::<u8>::empty());
        assert(tail.last() == (m % 255) as u8);
        assert(((m % 255) as u8) as int == m % 255);
        assert(lacing_sum(tail) == lacing_sum(tail.drop_last()) + tail.last() as nat);
        assert(lacing_sum(tail) == m % 255);
    } else {
        assert(lacing_sum(tail) == 0);
    }
    assert(255 * (m / 255) + m % 255 == m);
    assert(piece_lacing(m, complete) == full + tail);
}

/// The lacing values of the first `k` pieces add up to the size of those pieces.
pub proof fn lemma_lacings_sum(pg: PageValuesView, k: int)
    requires
        pieces_valid(pg),
        0 <= k <= pg.data.len(),
        pg.this_overflow is Some ==> piece(pg, pg.data.len() - 1).len() % 255 == 0,
    ensures
        lacing_sum(lacings_upto(pg, k)) == page_pieces(pg).take(k).flatten_alt().len(),
    decreases k,
{
    if k > 0 {
        lemma_lacings_sum(pg, k - 1);
        let m = piece(pg, k - 1).len() as int;
        lemma_piece_lacing_sum(m, piece_complete(pg, k - 1));
        lemma_lacing_sum_concat(lacings_upto(pg, k - 1), piece_lacing(m, piece_complete(pg, k - 1)));
        assert(page_pieces(pg).take(k).drop_last() =~= page_pieces(pg).take(k - 1));
    } else {
        assert(page_pieces(pg).take(0) =~= Seq::<Seq<u8>>::empty());
    }
}

/// Facts about the header bytes that the writer emits.
pub proof fn lemma_page_header(serial: u32, pg: PageValuesView, last_page: bool, crc: u32)
    requires
        pg.lacing.len() <= 255,
    ensures
        ({
            let h = page_header(serial, pg, last_page, crc);
            &&& h.len() == 27
            &&& h.take(4) == capture_pattern()
            &&& h[4] == 0
            &&& h[5] == page_flags(pg, last_page)
            &&& h[26] == pg.lacing.len()
            &&& le_value(h.subrange(6, 14)) == page_granule(pg)
            &&& le_value(h.subrange(14, 18)) == serial
            &&& le_value(h.subrange(18, 22)) == pg.sequence_num
            &&& le_value(h.subrange(22, 26)) == crc
            &&& header_with_zero_crc(h) == page_header(serial, pg, last_page, 0)
        }),
{
    reveal(page_header);
    let h = page_header(serial, pg, last_page, crc);
    lemma_u64_le_roundtrip(page_granule(pg));
    lemma_u32_le_roundtrip(serial);
    lemma_u32_le_roundtrip(pg.sequence_num);
    lemma_u32_le_roundtrip(crc);
    assert(h.take(4) =~= capture_pattern());
    assert(h.subrange(6, 14) =~= u64_le_seq(page_granule(pg)));
    assert(h.subrange(14, 18) =~= u32_le_seq(serial));
    assert(h.subrange(18, 22) =~= u32_le_seq(pg.sequence_num));
    assert(h.subrange(22, 26) =~= u32_le_seq(crc));
    let z: u32 = 0;
    assert((z & 0xff) == 0 && ((z >> 8u32) & 0xff) == 0 && ((z >> 16u32) & 0xff) == 0 && ((z
        >> 24u32) & 0xff) == 0) by (bit_vector)
        requires
            z == 0,
    ;
    assert(header_with_zero_crc(h) =~= page_header(serial, pg, last_page, 0));
}

/// A page that the writer emits, followed by whole pages, is a stream of whole pages.
pub proof fn lemma_page_bytes_valid(serial: u32, pg: PageValuesView, last_page: bool, rest: Seq<u8>)
    requires
        pieces_valid(pg),
        lacing_matches(pg),
        pg.lacing.len() <= 255,
        valid_pages(rest),
    ensures
        valid_pages(page_bytes(serial, pg, last_page) + rest),
{
    reveal(page_bytes);
    let crc = page_checksum(serial, pg, last_page);
    let h = page_header(serial, pg, last_page, crc);
    lemma_page_header(serial, pg, last_page, crc);
    lemma_lacings_sum(pg, pg.data.len() as int);
    assert(page_pieces(pg).take(pg.data.len() as int) =~= page_pieces(pg));
    let body = page_body(pg);
    let s = page_bytes(serial, pg, last_page) + rest;
    let nseg = pg.lacing.len() as int;
    assert(s =~= h + pg.lacing + body + rest);
    assert(s.take(27) =~= h);
    assert(s[26] == h[26]);
    assert(s.subrange(27, 27 + nseg) =~= pg.lacing);
    let n = 27 + nseg + lacing_sum(pg.lacing);
    assert(s.subrange(27 + nseg, n) =~= body);
    assert(s.skip(n) =~= rest);
}

/// The lacing value of segment `i` of a packet of `len` bytes: full segments of
/// 255 bytes, then one last segment of fewer than 255 bytes (possibly none).
pub open spec fn segment_value(len: nat, i: int) -> u8 {
    if i + 1 < len / 255 + 1 {
        255u8
    } else {
        (len % 255) as u8
    }
}

/// Adds the lacing value of segment `i` of the packet of `len` bytes that is the
/// last one of `pg`; a page that becomes full is emitted. Returns the new state
/// and the bytes emitted.
pub open spec fn lace_segment(
    serial: u32,
    pg: PageValuesView,
    len: nat,
    i: int,
    end_stream: bool,
) -> (PageValuesView, Seq<u8>) {
    let pg1 = PageValuesView { lacing: pg.lacing.push(segment_value(len, i)), ..pg };
    if pg1.lacing.len() == 255 {
        if i + 1 < len / 255 + 1 {
            let pg2 = PageValuesView { this_overflow: Some((i + 1) * 255), ..pg1 };
            (page_reset(pg2), page_bytes(serial, pg2, false))
        } else {
            (page_reset(pg1), page_bytes(serial, pg1, end_stream))
        }
    } else {
        (pg1, Seq::empty())
    }
}

/// The page that lacing segment `k` of the last packet of `pg`, of `len` bytes,
/// completes when it fills the lacing: the packet continues on the next page
/// unless that segment is its last one.
pub open spec fn full_page(pg: PageValuesView, len: nat, k: int) -> PageValuesView {
    let pg1 = PageValuesView { lacing: pg.lacing.push(segment_value(len, k)), ..pg };
    if k + 1 < len / 255 + 1 {
        PageValuesView { this_overflow: Some((k + 1) * 255), ..pg1 }
    } else {
        pg1
    }
}

/// A page that is ready to be emitted: its pieces lie within their packets, its
/// lacing values are those of its pieces and there is at least one, and a piece
/// that continues on the next page is not empty.
pub open spec fn page_ready(pg: PageValuesView) -> bool {
    &&& pieces_valid(pg)
    &&& lacing_matches(pg)
    &&& 1 <= pg.lacing.len() <= 255
    &&& pg.this_overflow is Some ==> piece(pg, pg.data.len() - 1).len() > 0
}

/// The first `k` segments of the last packet of `pg` laced, one after the other.
pub open spec fn lace_segments(
    serial: u32,
    pg: PageValuesView,
    len: nat,
    k: nat,
    end_stream: bool,
) -> (PageValuesView, Seq<u8>)
    decreases k,
{
    if k == 0 {
        (pg, Seq::empty())
    } else {
        let (p, out) = lace_segments(serial, pg, len, (k - 1) as nat, end_stream);
        let (p2, out2) = lace_segment(serial, p, len, k - 1, end_stream);
        (p2, out + out2)
    }
}

/// The page state of a stream that has not written anything yet.
pub open spec fn fresh_page_values() -> PageValuesView {
    PageValuesView {
        first_page: true,
        sequence_num: 0,
        lacing: Seq::empty(),
        data: Seq::empty(),
        this_overflow: None,
        last_overflow: None,
    }
}

/// The page state of stream `serial` in the writer `w`.
pub open spec fn stream_page(w: WriterView, serial: u32) -> PageValuesView {
    if w.page_vals.contains_key(serial) {
        w.page_vals[serial]
    } else {
        fresh_page_values()
    }
}

/// The number of pages that writing a packet of `len` bytes emits, when the
/// page being assembled holds `cnt` lacing values.
pub open spec fn pages_emitted(cnt: int, len: nat, inf: PacketWriteEndInfo) -> int {
    let n = len / 255 + 1;
    (cnt + n) / 255 + (if inf != PacketWriteEndInfo::NormalPacket && (cnt + n) % 255 != 0 {
        1int
    } else {
        0int
    })
}

/// What writing the packet `pck` to stream `serial` does: the new writer state,
/// and the bytes of the pages that it emits.
pub open spec fn write_outcome(
    w: WriterView,
    pck: Seq<u8>,
    serial: u32,
    inf: PacketWriteEndInfo,
    absgp: u64,
) -> (WriterView, Seq<u8>) {
    let end_stream = inf == PacketWriteEndInfo::EndStream;
    let pg0 = stream_page(w, serial);
    let pg1 = PageValuesView { data: pg0.data.push((pck, absgp)), ..pg0 };
    let (pg2, out) = lace_segments(serial, pg1, pck.len(), pck.len() / 255 + 1, end_stream);
    let (pg3, out2) = if inf != PacketWriteEndInfo::NormalPacket && pg2.lacing.len() != 0 {
        (page_reset(pg2), page_bytes(serial, pg2, end_stream))
    } else {
        (pg2, Seq::<u8>::empty())
    };
    (
        WriterView {
            page_vals: if end_stream {
                w.page_vals.remove(serial)
            } else {
                w.page_vals.insert(serial, pg3)
            },
        },
        out + out2,
    )
}

/// What writing the packets `pcks`, one after the other, does: each is the
/// serial of its stream, its data, how it ends and its granule position. The
/// new writer state, and the bytes of all the pages emitted.
pub open spec fn packets_written(
    w: WriterView,
    pcks: Seq<(u32, Seq<u8>, PacketWriteEndInfo, u64)>,
) -> (WriterView, Seq<u8>)
    decreases pcks.len(),
{
    if pcks.len() == 0 {
        (w, Seq::empty())
    } else {
        let (w1, out1) = packets_written(w, pcks.drop_last());
        let (serial, pck, inf, absgp) = pcks.last();
        let (w2, out2) = write_outcome(w1, pck, serial, inf, absgp);
        (w2, out1 + out2)
    }
}

/// The lacing values of complete pieces are at least as many as the pieces.
pub(crate) proof fn lemma_lacings_len(pg: PageValuesView, k: int)
    requires
        0 <= k <= pg.data.len(),
        pg.this_overflow is None,
    ensures
        lacings_upto(pg, k).len() >= k,
    decreases k,
{
    if k > 0 {
        lemma_lacings_len(pg, k - 1);
        lemma_piece_lacing_sum(piece(pg, k - 1).len() as int, true);
    }
}

/// A write that ends the page or the stream leaves nothing of the stream in
/// assembly: no lacing value and no packet. After the end of a stream, the next
/// packet of that serial begins a new stream, on a first page numbered 0.
pub proof fn lemma_page_end_flushes(
    w: WriterView,
    pck: Seq<u8>,
    serial: u32,
    inf: PacketWriteEndInfo,
    absgp: u64,
)
    requires
        writer_wf(w),
        inf != PacketWriteEndInfo::NormalPacket,
    ensures
        ({
            let pg = stream_page(write_outcome(w, pck, serial, inf, absgp).0, serial);
            &&& pg.lacing.len() == 0
            &&& pg.data.len() == 0
            &&& inf == PacketWriteEndInfo::EndStream ==> pg == fresh_page_values()
        }),
{
    let end_stream = inf == PacketWriteEndInfo::EndStream;
    let pg0 = stream_page(w, serial);
    assert(values_wf(pg0)) by {
        if !w.page_vals.contains_key(serial) {
            assert(pg0.lacing =~= lacings_upto(pg0, 0));
        }
    }
    let pg1 = PageValuesView { data: pg0.data.push((pck, absgp)), ..pg0 };
    lemma_lace_start(pg0, pck, absgp);
    let (p2, out) = lace_segments(serial, pg1, pck.len(), pck.len() / 255 + 1, end_stream);
    lemma_lace_segments(serial, pg1, pck.len(), pck.len() / 255 + 1, end_stream);
    if p2.lacing.len() == 0 {
        lemma_lacings_len(p2, p2.data.len() as int);
    }
}

/// Writing a packet keeps every stream of the writer well formed.
pub(crate) proof fn lemma_write_keeps_wf(
    w: WriterView,
    pck: Seq<u8>,
    serial: u32,
    inf: PacketWriteEndInfo,
    absgp: u64,
)
    requires
        writer_wf(w),
    ensures
        writer_wf(write_outcome(w, pck, serial, inf, absgp).0),
{
    let end_stream = inf == PacketWriteEndInfo::EndStream;
    let pg0 = stream_page(w, serial);
    assert(values_wf(pg0)) by {
        if !w.page_vals.contains_key(serial) {
            assert(pg0.lacing =~= lacings_upto(pg0, 0));
        }
    }
    let pg1 = PageValuesView { data: pg0.data.push((pck, absgp)), ..pg0 };
    lemma_lace_start(pg0, pck, absgp);
    let (p2, out) = lace_segments(serial, pg1, pck.len(), pck.len() / 255 + 1, end_stream);
    lemma_lace_segments(serial, pg1, pck.len(), pck.len() / 255 + 1, end_stream);
    let pg3 = if inf != PacketWriteEndInfo::NormalPacket && p2.lacing.len() != 0 {
        page_reset(p2)
    } else {
        p2
    };
    assert(values_wf(pg3)) by {
        if inf != PacketWriteEndInfo::NormalPacket && p2.lacing.len() != 0 {
            assert(pg3.lacing =~= lacings_upto(pg3, 0));
        }
    }
    let w2 = write_outcome(w, pck, serial, inf, absgp).0;
    assert forall|k: u32| #[trigger] w2.page_vals.contains_key(k) implies values_wf(
        w2.page_vals[k],
    ) by {
        if k != serial {
            assert(w.page_vals.contains_key(k));
        }
    }
}

/// What the page in assembly of a stream satisfies between two packets.
pub open spec fn values_wf(pg: PageValuesView) -> bool {
    &&& pg.lacing.len() < 255
    &&& pg.this_overflow is None
    &&& pg.last_overflow matches Some(x) ==> pg.data.len() >= 1 && 0 <= x <= pg.data[0].0.len()
    &&& pieces_valid(pg)
    &&& lacing_matches(pg)
}

/// What the state of a `BasePacketWriter` satisfies between calls.
pub open spec fn writer_wf(w: WriterView) -> bool {
    forall|k: u32| #[trigger] w.page_vals.contains_key(k) ==> values_wf(w.page_vals[k])
}

/// What the state of a `BasePacketWriter` satisfies between calls, also after a
/// failed write: the page in assembly of each stream is well formed, or is a
/// full page that could not be written, kept as it was.
pub open spec fn writer_inv(w: WriterView) -> bool {
    forall|k: u32|
        #[trigger] w.page_vals.contains_key(k) ==> values_wf(w.page_vals[k])
            || w.page_vals[k].lacing.len() == 255
}

/// The page in assembly of stream `serial` when the write of a packet fails at
/// step `k`: at step `k` below the number of segments, the write of the page
/// that segment `k` filled; at that number, the write of the page that the
/// packet asked to end. `None` when no page is written at that step.
pub open spec fn failed_page(
    w: WriterView,
    pck: Seq<u8>,
    serial: u32,
    inf: PacketWriteEndInfo,
    absgp: u64,
    k: int,
) -> Option<PageValuesView> {
    let end_stream = inf == PacketWriteEndInfo::EndStream;
    let pg0 = stream_page(w, serial);
    let pg1 = PageValuesView { data: pg0.data.push((pck, absgp)), ..pg0 };
    let n = pck.len() / 255 + 1;
    if 0 <= k < n {
        let p = lace_segments(serial, pg1, pck.len(), k as nat, end_stream).0;
        if p.lacing.len() + 1 == 255 {
            Some(full_page(p, pck.len(), k))
        } else {
            None
        }
    } else if k == n {
        let p = lace_segments(serial, pg1, pck.len(), n, end_stream).0;
        if inf != PacketWriteEndInfo::NormalPacket && p.lacing.len() != 0 {
            Some(p)
        } else {
            None
        }
    } else {
        None
    }
}

/// Two pages whose first `k` pieces agree have the same lacing values for them.
proof fn lemma_lacings_upto_ext(p: PageValuesView, q: PageValuesView, k: int)
    requires
        forall|i: int|
            0 <= i < k ==> #[trigger] piece(p, i) == piece(q, i) && piece_complete(p, i)
                == piece_complete(q, i),
    ensures
        lacings_upto(p, k) == lacings_upto(q, k),
    decreases k,
{
    if k > 0 {
        lemma_lacings_upto_ext(p, q, k - 1);
    }
}

/// The lacing of a page in which the first `k` segments of the last packet, of
/// `len` bytes, have been laced.
pub open spec fn partial_lacing_matches(pg: PageValuesView, len: nat, k: int) -> bool {
    let c = pg.data.len() - 1;
    let s = piece_start(pg, c);
    &&& pg.data.len() >= 1
    &&& pg.data[c].0.len() == len
    &&& pg.this_overflow is None
    &&& s % 255 == 0
    &&& 0 <= s <= k * 255
    &&& pg.lacing == lacings_upto(pg, c) + Seq::new(
        (k - s / 255) as nat,
        |t: int| segment_value(len, s / 255 + t),
    )
}

/// What holds of the page of a stream after `k` of the `n` segments of the
/// packet of `len` bytes that is being written were laced.
pub open spec fn lace_inv(pg: PageValuesView, len: nat, k: int) -> bool {
    let n = len / 255 + 1;
    if k < n {
        &&& partial_lacing_matches(pg, len, k)
        &&& pieces_valid(pg)
        &&& pg.lacing.len() < 255
        &&& pg.last_overflow matches Some(x) ==> 0 <= x <= pg.data[0].0.len()
    } else {
        values_wf(pg)
    }
}

/// Lacing one more segment keeps the lacing in agreement with the pieces, and
/// the page it may emit is a whole, well-formed page.
pub(crate) proof fn lemma_lace_step(serial: u32, pg: PageValuesView, len: nat, k: int, end_stream: bool)
    requires
        0 <= k < len / 255 + 1,
        lace_inv(pg, len, k),
    ensures
        ({
            let (p2, out) = lace_segment(serial, pg, len, k, end_stream);
            &&& lace_inv(p2, len, k + 1)
            &&& valid_pages(out)
        }),
        pg.lacing.len() + 1 == 255 ==> {
            let f = full_page(pg, len, k);
            &&& page_ready(f)
            &&& lace_segment(serial, pg, len, k, end_stream) == (
                page_reset(f),
                page_bytes(serial, f, !(k + 1 < len / 255 + 1) && end_stream),
            )
        },
{
    let n = len / 255 + 1;
    let c = pg.data.len() - 1;
    let s = piece_start(pg, c);
    let v = segment_value(len, k);
    let pg1 = PageValuesView { lacing: pg.lacing.push(v), ..pg };
    let partial = Seq::new((k - s / 255) as nat, |t: int| segment_value(len, s / 255 + t));
    let partial1 = Seq::new((k + 1 - s / 255) as nat, |t: int| segment_value(len, s / 255 + t));
    assert(partial1 =~= partial.push(v));
    lemma_lacings_upto_ext(pg1, pg, c);
    assert(pg1.lacing =~= lacings_upto(pg1, c) + partial1);
    if k + 1 == n {
        // The packet ends: its lacing values are those of a complete piece.
        let m = len - s;
        assert(piece(pg1, c).len() == m);
        assert(m / 255 == n - 1 - s / 255);
        assert(m % 255 == len % 255);
        assert(partial1 =~= piece_lacing(m, true));
        assert(lacings_upto(pg1, c + 1) == lacings_upto(pg1, c) + piece_lacing(
            piece(pg1, c).len() as int,
            piece_complete(pg1, c),
        ));
        assert(lacing_matches(pg1));
    }
    if pg1.lacing.len() == 255 {
        if k + 1 < n {
            let pg2 = PageValuesView { this_overflow: Some((k + 1) * 255), ..pg1 };
            assert((k + 1) * 255 <= len) by (nonlinear_arith)
                requires
                    k + 1 < len / 255 + 1,
            ;
            let m = (k + 1) * 255 - s;
            assert(piece(pg2, c).len() == m);
            assert(m / 255 == k + 1 - s / 255) by (nonlinear_arith)
                requires
                    m == (k + 1) * 255 - s,
                    s % 255 == 0,
                    0 <= s <= (k + 1) * 255,
            ;
            assert(m % 255 == 0) by (nonlinear_arith)
                requires
                    m == (k + 1) * 255 - s,
                    s % 255 == 0,
                    0 <= s <= (k + 1) * 255,
            ;
            assert forall|t: int| 0 <= t < k + 1 - s / 255 implies #[trigger] partial1[t] == 255u8 by {
                assert(s / 255 + t < n - 1);
            }
            assert(partial1 =~= piece_lacing(m, false));
            assert forall|i: int| 0 <= i < c implies #[trigger] piece(pg2, i) == piece(pg1, i)
                && piece_complete(pg2, i) == piece_complete(pg1, i) by {}
            lemma_lacings_upto_ext(pg2, pg1, c);
            assert(lacings_upto(pg2, c + 1) == lacings_upto(pg2, c) + piece_lacing(
                piece(pg2, c).len() as int,
                piece_complete(pg2, c),
            ));
            assert(lacing_matches(pg2));
            assert forall|i: int| 0 <= i < pg2.data.len() implies 0 <= #[trigger] piece_start(
                pg2,
                i,
            ) <= piece_end(pg2, i) <= pg2.data[i].0.len() by {
                if i < c {
                    assert(piece_start(pg2, i) == piece_start(pg, i));
                    assert(piece_end(pg2, i) == piece_end(pg, i));
                }
            }
            lemma_page_bytes_valid(serial, pg2, false, Seq::empty());
            assert(page_bytes(serial, pg2, false) + Seq::<u8>::empty() =~= page_bytes(
                serial,
                pg2,
                false,
            ));
            let p2 = page_reset(pg2);
            assert(p2.data.len() == 1);
            assert(piece_start(p2, 0) == (k + 1) * 255);
            assert(p2.lacing =~= lacings_upto(p2, 0) + Seq::new(
                (k + 1 - (k + 1) * 255 / 255) as nat,
                |t: int| segment_value(len, (k + 1) * 255 / 255 + t),
            ));
        } else {
            lemma_page_bytes_valid(serial, pg1, end_stream, Seq::empty());
            assert(page_bytes(serial, pg1, end_stream) + Seq::<u8>::empty() =~= page_bytes(
                serial,
                pg1,
                end_stream,
            ));
            let p2 = page_reset(pg1);
            assert(p2.lacing =~= lacings_upto(p2, 0));
        }
    } else {
        assert forall|i: int| 0 <= i < pg1.data.len() implies 0 <= #[trigger] piece_start(
            pg1,
            i,
        ) <= piece_end(pg1, i) <= pg1.data[i].0.len() by {
            assert(piece_start(pg1, i) == piece_start(pg, i));
            assert(piece_end(pg1, i) == piece_end(pg, i));
        }
    }
}

/// Lacing the segments of a packet one after the other keeps the lacing in
/// agreement with the pieces, and what is emitted is a stream of whole pages.
pub(crate) proof fn lemma_lace_segments(serial: u32, pg: PageValuesView, len: nat, k: nat, end_stream: bool)
    requires
        k <= len / 255 + 1,
        lace_inv(pg, len, 0),
    ensures
        ({
            let (p, out) = lace_segments(serial, pg, len, k, end_stream);
            &&& lace_inv(p, len, k as int)
            &&& valid_pages(out)
        }),
    decreases k,
{
    if k > 0 {
        lemma_lace_segments(serial, pg, len, (k - 1) as nat, end_stream);
        let (p, out) = lace_segments(serial, pg, len, (k - 1) as nat, end_stream);
        lemma_lace_step(serial, p, len, k - 1, end_stream);
        let (p2, out2) = lace_segment(serial, p, len, k - 1, end_stream);
        lemma_valid_pages_concat(out, out2);
    }
}

/// What lacing the first `k` segments emits is a beginning of what lacing `m`
/// of them emits, for `k <= m`.
proof fn lemma_lace_segments_prefix(
    serial: u32,
    pg: PageValuesView,
    len: nat,
    k: nat,
    m: nat,
    end_stream: bool,
)
    requires
        k <= m,
    ensures
        lace_segments(serial, pg, len, k, end_stream).1.is_prefix_of(
            lace_segments(serial, pg, len, m, end_stream).1,
        ),
    decreases m,
{
    let a = lace_segments(serial, pg, len, k, end_stream).1;
    if k < m {
        lemma_lace_segments_prefix(serial, pg, len, k, (m - 1) as nat, end_stream);
        let (p, b) = lace_segments(serial, pg, len, (m - 1) as nat, end_stream);
        let c = lace_segments(serial, pg, len, m, end_stream).1;
        assert(c == b + lace_segment(serial, p, len, m - 1, end_stream).1);
        assert forall|i: int| 0 <= i < a.len() implies a[i] == c[i] by {
            assert(a[i] == b.subrange(0, a.len() as int)[i]);
        }
        assert(a =~= c.subrange(0, a.len() as int));
    } else {
        assert(a =~= a.subrange(0, a.len() as int));
    }
}

/// The packet appended to a page in its settled state starts a lacing in progress.
pub(crate) proof fn lemma_lace_start(pg0: PageValuesView, pck: Seq<u8>, absgp: u64)
    requires
        values_wf(pg0),
    ensures
        lace_inv(PageValuesView { data: pg0.data.push((pck, absgp)), ..pg0 }, pck.len(), 0),
{
    let pg1 = PageValuesView { data: pg0.data.push((pck, absgp)), ..pg0 };
    let c = pg0.data.len() as int;
    assert forall|i: int| 0 <= i < c implies #[trigger] piece(pg1, i) == piece(pg0, i)
        && piece_complete(pg1, i) == piece_complete(pg0, i) by {
        assert(pg1.data[i] == pg0.data[i]);
    }
    lemma_lacings_upto_ext(pg1, pg0, c);
    assert(piece_start(pg1, c) == 0);
    assert(pg1.lacing =~= lacings_upto(pg1, c) + Seq::new(
        (0 - 0int / 255) as nat,
        |t: int| segment_value(pck.len(), 0int / 255 + t),
    ));
    assert forall|i: int| 0 <= i < pg1.data.len() implies 0 <= #[trigger] piece_start(pg1, i)
        <= piece_end(pg1, i) <= pg1.data[i].0.len() by {
        if i < c {
            assert(piece_start(pg1, i) == piece_start(pg0, i));
            assert(piece_end(pg1, i) == piece_end(pg0, i));
        }
    }
}

/// Internal base packet writer that contains common packet writing logic.
pub struct BasePacketWriter {
    page_vals: HashMap<u32, CurrentPageValues>,
    /// Every write made to a sink so far, with whether it was taken.
    sink_writes: Ghost<Seq<(Seq<u8>, bool)>>,
}

spec fn vals_view(m: Map<u32, CurrentPageValues>) -> Map<u32, PageValuesView> {
    m.map_values(|v: CurrentPageValues| v@)
}

/// The model of a `BasePacketWriter`: the page in assembly of each stream.
pub struct WriterView {
    pub page_vals: Map<u32, PageValuesView>,
}

impl View for BasePacketWriter {
    type V = WriterView;

    closed spec fn view(&self) -> WriterView {
        WriterView { page_vals: vals_view(self.page_vals@) }
    }
}

proof fn lemma_vals_insert(m: Map<u32, CurrentPageValues>, k: u32, v: CurrentPageValues)
    ensures
        vals_view(m.insert(k, v)) == vals_view(m).insert(k, v@),
{
    assert(vals_view(m.insert(k, v)) =~= vals_view(m).insert(k, v@));
}

proof fn lemma_vals_remove(m: Map<u32, CurrentPageValues>, k: u32)
    ensures
        vals_view(m.remove(k)) == vals_view(m).remove(k),
{
    assert(vals_view(m.remove(k)) =~= vals_view(m).remove(k));
}

impl BasePacketWriter {
    /// The writes that the writer made to its sinks so far, in order: the data
    /// of each and whether the sink took it.
    pub closed spec fn sink_log(&self) -> Seq<(Seq<u8>, bool)> {
        self.sink_writes@
    }

    /// A writer with no stream in progress.
    pub fn new() -> (res: Self)
        ensures
            writer_wf(res@),
            writer_inv(res@),
            res@.page_vals == Map::<u32, PageValuesView>::empty(),
            res.sink_log() == Seq::<(Seq<u8>, bool)>::empty(),
    {
        let w = Self { page_vals: HashMap::new(), sink_writes: Ghost(Seq::empty()) };
        assert(w@.page_vals =~= Map::<u32, PageValuesView>::empty());
        w
    }

    /// The granule position that the header of the page in `pg` carries: that
    /// of the last packet that finishes in the page.
    fn last_finishing_absgp(pg: &CurrentPageValues) -> (res: u64)
        ensures
            res == page_granule(pg@),
    {
        let ghost p = pg@;
        let n = pg.cur_pg_data.len();
        let mut last_finishing_pck_absgp: u64 = 0xffff_ffff_ffff_ffffu64;
        let mut idx: usize = 0;
        while idx < n
            invariant
                n == p.data.len(),
                pg@ == p,
                0 <= idx <= n,
                ({
                    let k = if idx < finishing_count(p) {
                        idx as int
                    } else {
                        finishing_count(p)
                    };
                    last_finishing_pck_absgp == (if k >= 1 {
                        p.data[k - 1].1
                    } else {
                        0xffff_ffff_ffff_ffffu64
                    })
                }),
            decreases n - idx,
        {
            if !(idx + 1 == n && pg.pck_this_overflow_idx.is_some()) {
                last_finishing_pck_absgp = pg.cur_pg_data[idx].1;
                proof {
                    assert(p.data[idx as int].1 == pg.cur_pg_data@[idx as int].1);
                }
            }
            idx = idx + 1;
        }
        last_finishing_pck_absgp
    }

    /// The header of the page in `pg`, with a zero checksum field.
    fn header_bytes(serial: u32, pg: &CurrentPageValues, last_page: bool) -> (hdr: Vec<u8>)
        ensures
            hdr@ == page_header(serial, pg@, last_page, 0),
            hdr@.len() == 27,
    {
        let ghost p = pg@;
        // The page header with everything but the lacing values:
        let mut hdr: Vec<u8> = Vec::new();

        // Capture pattern.
        hdr.push(0x4fu8);
        hdr.push(0x67u8);
        hdr.push(0x67u8);
        hdr.push(0x53u8);

        // Ogg format version, always zero.
        hdr.push(0);

        let fa: u8 = if pg.pck_last_overflow_idx.is_some() { 0x01 } else { 0 };
        let fb: u8 = if pg.first_page { 0x02 } else { 0 };
        let fc: u8 = if last_page { 0x04 } else { 0 };
        let flags: u8 = fa | fb | fc;
        assert((fa | fb) | fc == fa + fb + fc) by (bit_vector)
            requires
                fa == 0 || fa == 1,
                fb == 0 || fb == 2,
                fc == 0 || fc == 4,
        ;
        assert(flags == page_flags(p, last_page));
        hdr.push(flags);

        let gp_bytes = u64_to_le_bytes(Self::last_finishing_absgp(pg));
        let serial_bytes = u32_v1_32::to_le_bytes(serial);
        let seq_bytes = u32_v1_32::to_le_bytes(pg.sequence_num);
        let ghost h0 = hdr@;
        let mut j: usize = 0;
        while j < 8
            invariant
                0 <= j <= 8,
                hdr@ == h0 + gp_bytes@.take(j as int),
            decreases 8 - j,
        {
            hdr.push(gp_bytes[j]);
            assert(gp_bytes@.take(j + 1) =~= gp_bytes@.take(j as int).push(gp_bytes@[j as int]));
            j = j + 1;
        }
        assert(gp_bytes@.take(8) =~= gp_bytes@);
        let ghost h1 = hdr@;
        let mut j: usize = 0;
        while j < 4
            invariant
                0 <= j <= 4,
                hdr@ == h1 + serial_bytes@.take(j as int),
            decreases 4 - j,
        {
            hdr.push(serial_bytes[j]);
            assert(serial_bytes@.take(j + 1) =~= serial_bytes@.take(j as int).push(
                serial_bytes@[j as int],
            ));
            j = j + 1;
        }
        assert(serial_bytes@.take(4) =~= serial_bytes@);
        let ghost h2 = hdr@;
        let mut j: usize = 0;
        while j < 4
            invariant
                0 <= j <= 4,
                hdr@ == h2 + seq_bytes@.take(j as int),
            decreases 4 - j,
        {
            hdr.push(seq_bytes[j]);
            assert(seq_bytes@.take(j + 1) =~= seq_bytes@.take(j as int).push(seq_bytes@[j as int]));
            j = j + 1;
        }
        assert(seq_bytes@.take(4) =~= seq_bytes@);
        // checksum, calculated later on :)
        hdr.push(0);
        hdr.push(0);
        hdr.push(0);
        hdr.push(0);
        hdr.push(pg.segment_cnt);
        proof {
            let z: u32 = 0;
            assert((z & 0xff) == 0 && ((z >> 8u32) & 0xff) == 0 && ((z >> 16u32) & 0xff) == 0 && ((z
                >> 24u32) & 0xff) == 0) by (bit_vector)
                requires
                    z == 0,
            ;
            assert(u32_le_seq(0) =~= seq![0u8, 0u8, 0u8, 0u8]);
            reveal(page_header);
            assert(hdr@ =~= page_header(serial, p, last_page, 0));
        }
        hdr
    }

    /// The piece of packet `idx` that the page in `pg` carries.
    fn piece_bytes(pg: &CurrentPageValues, idx: usize) -> (res: Vec<u8>)
        requires
            pieces_valid(pg@),
            idx < pg@.data.len(),
        ensures
            res@ == piece(pg@, idx as int),
    {
        let ghost p = pg@;
        let n = pg.cur_pg_data.len();
        let mut start: usize = 0;
        if idx == 0 {
            if let Some(i) = pg.pck_last_overflow_idx {
                start = i;
            }
        }
        let mut end: usize = pg.cur_pg_data[idx].0.len();
        if idx + 1 == n {
            if let Some(i) = pg.pck_this_overflow_idx {
                end = i;
            }
        }
        proof {
            assert(p.data[idx as int].0 == pg.cur_pg_data@[idx as int].0@);
            assert(start == piece_start(p, idx as int));
            assert(end == piece_end(p, idx as int));
            assert(0 <= piece_start(p, idx as int));
        }
        vstd::slice::slice_to_vec(
            vstd::slice::slice_subrange(pg.cur_pg_data[idx].0.as_slice(), start, end),
        )
    }

    /// The checksum of the page in `pg` whose zero-checksum header is `hdr`.
    fn page_crc(hdr: &Vec<u8>, pg: &CurrentPageValues) -> (res: u32)
        requires
            pieces_valid(pg@),
            pg.segment_cnt <= 255,
        ensures
            res == crc32_of(0, hdr@ + pg@.lacing + page_body(pg@)),
    {
        let ghost p = pg@;
        let cnt = pg.segment_cnt as usize;
        let pg_lacing = vstd::slice::slice_subrange(pg.cur_pg_lacing.as_slice(), 0, cnt);
        assert(pg_lacing@ =~= p.lacing);

        let mut hash_calculated = vorbis_crc32_update(0, hdr.as_slice());
        hash_calculated = vorbis_crc32_update(hash_calculated, pg_lacing);
        proof {
            lemma_crc32_concat(0, hdr@, p.lacing);
        }
        let n = pg.cur_pg_data.len();
        let mut idx: usize = 0;
        while idx < n
            invariant
                n == p.data.len(),
                pg@ == p,
                pieces_valid(p),
                0 <= idx <= n,
                hash_calculated == crc32_of(
                    0,
                    hdr@ + p.lacing + page_pieces(p).take(idx as int).flatten_alt(),
                ),
            decreases n - idx,
        {
            let pc = Self::piece_bytes(pg, idx);
            hash_calculated = vorbis_crc32_update(hash_calculated, pc.as_slice());
            proof {
                let pre = hdr@ + p.lacing;
                let done = page_pieces(p).take(idx as int).flatten_alt();
                lemma_crc32_concat(0, pre + done, piece(p, idx as int));
                assert(page_pieces(p).take(idx + 1).drop_last() =~= page_pieces(p).take(
                    idx as int,
                ));
                assert(pre + done + piece(p, idx as int) =~= pre + (done + piece(p, idx as int)));
            }
            idx = idx + 1;
        }
        assert(page_pieces(p).take(n as int) =~= page_pieces(p));
        hash_calculated
    }

    /// Sends the lacing values and the body of the page in `pg` to `sink`,
    /// stopping at the first write that fails. Returns whether all succeeded,
    /// and the writes made.
    fn emit_lacing_and_body<S: PageSink>(pg: &CurrentPageValues, sink: &mut S) -> (res: (
        bool,
        Ghost<Seq<(Seq<u8>, bool)>>,
    ))
        requires
            pieces_valid(pg@),
            pg.segment_cnt <= 255,
        ensures
            sent_as(res.1@, res.0, pg@.lacing + page_body(pg@)),
    {
        let ghost p = pg@;
        let ghost whole = p.lacing + page_body(p);
        let cnt = pg.segment_cnt as usize;
        let lacing_out = vstd::slice::slice_subrange(pg.cur_pg_lacing.as_slice(), 0, cnt);
        assert(lacing_out@ =~= p.lacing);
        let (ok, c) = send(sink, lacing_out);
        let ghost mut calls = c@;
        if !ok {
            proof {
                assert(p.lacing.is_prefix_of(whole)) by {
                    assert(p.lacing =~= whole.subrange(0, p.lacing.len() as int));
                }
                lemma_sent_within(calls, p.lacing, whole);
            }
            return (false, Ghost(calls));
        }
        let n = pg.cur_pg_data.len();
        let mut idx: usize = 0;
        while idx < n
            invariant
                n == p.data.len(),
                pg@ == p,
                pieces_valid(p),
                whole == p.lacing + page_body(p),
                0 <= idx <= n,
                sent_as(calls, true, p.lacing + page_pieces(p).take(idx as int).flatten_alt()),
            decreases n - idx,
        {
            let out = Self::piece_bytes(pg, idx);
            let (ok, c) = send(sink, out.as_slice());
            let ghost done = p.lacing + page_pieces(p).take(idx as int).flatten_alt();
            proof {
                assert(page_pieces(p).take(idx + 1).drop_last() =~= page_pieces(p).take(
                    idx as int,
                ));
                lemma_sent_seq(calls, done, c@, ok, out@);
                assert(done + out@ =~= p.lacing + page_pieces(p).take(idx + 1).flatten_alt());
                calls = calls + c@;
            }
            if !ok {
                proof {
                    let pcs = page_pieces(p);
                    let k = idx + 1;
                    lemma_flatten_alt_concat(pcs.take(k), pcs.skip(k));
                    assert(pcs.take(k) + pcs.skip(k) =~= pcs);
                    let e1 = p.lacing + pcs.take(k).flatten_alt();
                    assert(e1.is_prefix_of(whole)) by {
                        assert(e1 =~= whole.subrange(0, e1.len() as int));
                    }
                    lemma_sent_within(calls, e1, whole);
                }
                return (false, Ghost(calls));
            }
            idx = idx + 1;
        }
        assert(page_pieces(p).take(n as int) =~= page_pieces(p));
        (true, Ghost(calls))
    }

    /// Sends the page that is being assembled in `pg` to `sink`, and prepares
    /// `pg` for the next page. When a write fails, it stops there and leaves
    /// `pg` as it was, so that the page can be written again. Returns whether
    /// all writes succeeded, and the writes made.
    fn write_page<S: PageSink>(
        serial: u32,
        pg: &mut CurrentPageValues,
        last_page: bool,
        sink: &mut S,
    ) -> (res: (bool, Ghost<Seq<(Seq<u8>, bool)>>))
        requires
            old(pg).segment_cnt <= 255,
            pieces_valid(old(pg)@),
            old(pg)@.sequence_num < u32::MAX,
            old(pg)@.this_overflow is Some ==> old(pg)@.data.len() >= 1,
        ensures
            sent_as(res.1@, res.0, page_bytes(serial, old(pg)@, last_page)),
            res.0 ==> final(pg)@ == page_reset(old(pg)@) && final(pg).segment_cnt == 0,
            !res.0 ==> *final(pg) == *old(pg),
    {
        let ghost p = pg@;
        let mut hdr = Self::header_bytes(serial, pg, last_page);
        let hash_calculated = Self::page_crc(&hdr, pg);

        // Go back to enter the checksum
        let crc_bytes = u32_v1_32::to_le_bytes(hash_calculated);
        hdr.set(22, crc_bytes[0]);
        hdr.set(23, crc_bytes[1]);
        hdr.set(24, crc_bytes[2]);
        hdr.set(25, crc_bytes[3]);
        let ghost whole = page_bytes(serial, p, last_page);
        proof {
            reveal(page_header);
            assert(hdr@ =~= page_header(serial, p, last_page, hash_calculated));
            reveal(page_bytes);
            assert(whole =~= hdr@ + (p.lacing + page_body(p)));
        }

        // Now all is done, write the stuff!
        // Bail out with a failure if some write error happens.
        // This way the calling code can retry writing the page.
        let (ok, c) = send(sink, hdr.as_slice());
        if !ok {
            proof {
                assert(hdr@.is_prefix_of(whole)) by {
                    assert(hdr@ =~= whole.subrange(0, hdr@.len() as int));
                }
                lemma_sent_within(c@, hdr@, whole);
            }
            return (false, c);
        }
        let (ok2, c2) = Self::emit_lacing_and_body(pg, sink);
        let ghost calls = c@ + c2@;
        proof {
            lemma_sent_seq(c@, hdr@, c2@, ok2, p.lacing + page_body(p));
        }
        if !ok2 {
            return (false, Ghost(calls));
        }

        // Reset the page.
        pg.first_page = false;
        pg.sequence_num = pg.sequence_num + 1;
        pg.segment_cnt = 0;
        // If we couldn't fully write the last
        // packet, we need to keep it for the next page,
        // otherwise just clear everything.
        if pg.pck_this_overflow_idx.is_some() {
            let d = pg.cur_pg_data.pop().unwrap();
            pg.cur_pg_data.clear();
            pg.cur_pg_data.push(d);
        } else {
            pg.cur_pg_data.clear();
        }

        pg.pck_last_overflow_idx = pg.pck_this_overflow_idx;
        pg.pck_this_overflow_idx = None;
        proof {
            assert(pg@.data =~= page_reset(p).data);
            assert(pg@.lacing =~= page_reset(p).lacing);
        }
        (true, Ghost(calls))
    }

    /// Adds the lacing value of segment `segment_i` of the last packet of `pg`,
    /// and emits the page if it became full. Returns whether the writes of that
    /// page, if any, succeeded, and the writes made; after a failed one `pg`
    /// holds the full page.
    fn lace_step<S: PageSink>(
        serial: u32,
        pg: &mut CurrentPageValues,
        segment_i: usize,
        cont_len: usize,
        needed_segments: usize,
        last_data_segment_size: u8,
        is_end_stream: bool,
        sink: &mut S,
    ) -> (res: (bool, Ghost<Seq<(Seq<u8>, bool)>>))
        requires
            old(pg).segment_cnt < 255,
            old(pg)@.lacing.len() == old(pg).segment_cnt,
            old(pg)@.data.len() >= 1,
            cont_len == old(pg)@.data.last().0.len(),
            needed_segments == old(pg)@.data.last().0.len() / 255 + 1,
            last_data_segment_size == (old(pg)@.data.last().0.len() % 255) as u8,
            segment_i < needed_segments,
            old(pg)@.this_overflow is None,
            old(pg)@.last_overflow matches Some(x) ==> 0 <= x <= old(pg)@.data[0].0.len() && (old(
                pg,
            )@.data.len() == 1 ==> x <= segment_i * 255),
            old(pg).segment_cnt == 254 ==> old(pg).sequence_num < u32::MAX,
        ensures
            ({
                let (p, out) = lace_segment(
                    serial,
                    old(pg)@,
                    old(pg)@.data.last().0.len(),
                    segment_i as int,
                    is_end_stream,
                );
                &&& sent_as(res.1@, res.0, out)
                &&& res.0 ==> final(pg)@ == p
            }),
            res.0 ==> final(pg).segment_cnt == (old(pg).segment_cnt + 1) % 255,
            final(pg)@.lacing.len() == final(pg).segment_cnt,
            res.0 ==> final(pg).sequence_num == old(pg).sequence_num + (if old(pg).segment_cnt
                == 254 {
                1int
            } else {
                0int
            }),
            !res.0 ==> old(pg).segment_cnt == 254 && final(pg).segment_cnt == 255,
            !res.0 ==> final(pg)@ == full_page(
                old(pg)@,
                old(pg)@.data.last().0.len(),
                segment_i as int,
            ),
    {
        let ghost p_before = pg@;
        let ghost len = p_before.data.last().0.len();
        let segment_in_page_i = pg.segment_cnt;
        if segment_i + 1 < needed_segments {
            // For all segments containing 255 pieces of data
            pg.cur_pg_lacing[segment_in_page_i as usize] = 255;
        } else {
            // For the last segment, must contain < 255 pieces of data
            // (including 0)
            pg.cur_pg_lacing[segment_in_page_i as usize] = last_data_segment_size;
        }
        pg.segment_cnt = segment_in_page_i + 1;
        proof {
            assert(pg@.lacing =~= p_before.lacing.push(segment_value(len, segment_i as int)));
        }
        let next_in_page = (segment_in_page_i + 1) % 255;
        if next_in_page == 0 {
            if segment_i + 1 < needed_segments {
                // We have to flush a page, but we know there are more to come...
                proof {
                    assert((segment_i + 1) * 255 <= cont_len) by (nonlinear_arith)
                        requires
                            segment_i + 1 < cont_len / 255 + 1,
                    ;
                }
                pg.pck_this_overflow_idx = Some((segment_i + 1) * 255);
                proof {
                    let q = pg@;
                    assert forall|k: int| 0 <= k < q.data.len() implies 0 <= #[trigger] piece_start(
                        q,
                        k,
                    ) <= piece_end(q, k) <= q.data[k].0.len() by {
                        if k + 1 == q.data.len() {
                            assert(q.data[k] == p_before.data.last());
                        }
                    }
                }
                let (ok, c) = Self::write_page(serial, pg, false, sink);
                if !ok {
                    return (false, c);
                }
                return (true, c);
            } else {
                // We have to write a page end, and it's the very last
                // we need to write
                proof {
                    let q = pg@;
                    assert forall|k: int| 0 <= k < q.data.len() implies 0 <= #[trigger] piece_start(
                        q,
                        k,
                    ) <= piece_end(q, k) <= q.data[k].0.len() by {
                        if k + 1 == q.data.len() {
                            assert(q.data[k] == p_before.data.last());
                        }
                    }
                }
                let (ok, c) = Self::write_page(serial, pg, is_end_stream, sink);
                if !ok {
                    return (false, c);
                }
                // Not actually required
                // (it is always None except if we set it to Some directly
                // before we call write_page)
                pg.pck_this_overflow_idx = None;
                // Required (it could have been Some(offs) before)
                pg.pck_last_overflow_idx = None;
                return (true, c);
            }
        }
        proof {
            lemma_sent_nothing();
        }
        (true, Ghost(Seq::empty()))
    }

    /// Whether writing a packet of `len` bytes to stream `serial` keeps the page
    /// sequence number of the stream within its 32 bits.
    pub fn has_room(&self, serial: u32, len: usize, inf: PacketWriteEndInfo) -> (res: bool)
        ensures
            res == (stream_page(self@, serial).sequence_num + pages_emitted(
                stream_page(self@, serial).lacing.len() as int,
                len as nat,
                inf,
            ) <= u32::MAX),
    {
        let (seq, cnt): (u32, u8) = match self.page_vals.get(&serial) {
            Some(pg) => {
                proof {
                    assert(vals_view(self.page_vals@).contains_key(serial));
                    assert(vals_view(self.page_vals@)[serial] == pg@);
                }
                (pg.sequence_num, pg.segment_cnt)
            },
            None => {
                proof {
                    assert(!vals_view(self.page_vals@).contains_key(serial));
                }
                (0, 0)
            },
        };
        let n: u64 = len as u64 / 255 + 1;
        let total: u64 = cnt as u64 + n;
        let pages: u64 = total / 255 + (if inf != PacketWriteEndInfo::NormalPacket && total % 255 != 0 {
            1
        } else {
            0
        });
        seq as u64 + pages <= 0xffff_ffffu64
    }

    /// Whether the page in assembly of stream `serial` is a full page that could
    /// not be written: no packet can be added to that stream.
    pub fn has_full_page(&self, serial: u32) -> (res: bool)
        ensures
            res == (stream_page(self@, serial).lacing.len() == 255),
    {
        match self.page_vals.get(&serial) {
            Some(pg) => {
                proof {
                    assert(vals_view(self.page_vals@).contains_key(serial));
                    assert(vals_view(self.page_vals@)[serial] == pg@);
                }
                pg.segment_cnt == 255
            },
            None => {
                proof {
                    assert(!vals_view(self.page_vals@).contains_key(serial));
                }
                false
            },
        }
    }

    /// Takes the page in assembly of stream `serial` out of the writer, or a
    /// fresh one if the stream has written nothing yet.
    fn take_stream_page(&mut self, serial: u32) -> (pg: CurrentPageValues)
        requires
            writer_inv(old(self)@),
            stream_page(old(self)@, serial).lacing.len() < 255,
        ensures
            pg@ == stream_page(old(self)@, serial),
            values_wf(pg@),
            pg.segment_cnt == pg@.lacing.len(),
            final(self)@.page_vals == old(self)@.page_vals.remove(serial),
    {
        let ghost w0 = self@;
        let ghost old_map = self.page_vals@;
        let pg = match self.page_vals.remove(&serial) {
            Some(p) => p,
            None => CurrentPageValues {
                first_page: true,
                sequence_num: 0,
                segment_cnt: 0,
                cur_pg_lacing: [0u8; 255],
                cur_pg_data: Vec::new(),
                pck_this_overflow_idx: None,
                pck_last_overflow_idx: None,
            },
        };
        proof {
            lemma_vals_remove(old_map, serial);
            assert(pg@.lacing =~= stream_page(w0, serial).lacing);
            assert(pg@.data =~= stream_page(w0, serial).data);
            assert(pg@ == stream_page(w0, serial));
            if !w0.page_vals.contains_key(serial) {
                assert(pg@.lacing =~= lacings_upto(pg@, 0));
            }
        }
        pg
    }

    /// Appends the packet `pck_cont` to the page `pg` and laces all its
    /// segments, emitting the pages that become full into `sink`. Returns
    /// whether all those writes succeeded; it stops at the first that fails,
    /// and `pg` then holds the full page that could not be written.
    fn lace_packet<S: PageSink>(
        serial: u32,
        pg: &mut CurrentPageValues,
        pck_cont: Vec<u8>,
        absgp: u64,
        is_end_stream: bool,
        sink: &mut S,
    ) -> (res: (bool, Ghost<Seq<(Seq<u8>, bool)>>))
        requires
            values_wf(old(pg)@),
            old(pg).segment_cnt == old(pg)@.lacing.len(),
            old(pg).sequence_num + (old(pg).segment_cnt + pck_cont@.len() / 255 + 1) / 255
                <= u32::MAX,
        ensures
            ({
                let pg1 = PageValuesView {
                    data: old(pg)@.data.push((pck_cont@, absgp)),
                    ..old(pg)@
                };
                let (p, out) = lace_segments(
                    serial,
                    pg1,
                    pck_cont@.len(),
                    pck_cont@.len() / 255 + 1,
                    is_end_stream,
                );
                &&& valid_pages(out)
                &&& values_wf(p)
                &&& sent_as(res.1@, res.0, out)
                &&& res.0 ==> final(pg)@ == p
                &&& !res.0 ==> exists|k: int|
                    0 <= k < pck_cont@.len() / 255 + 1 && {
                        let q = #[trigger] lace_segments(
                            serial,
                            pg1,
                            pck_cont@.len(),
                            k as nat,
                            is_end_stream,
                        ).0;
                        &&& q.lacing.len() + 1 == 255
                        &&& final(pg)@ == full_page(q, pck_cont@.len(), k)
                    }
            }),
            final(pg).segment_cnt == final(pg)@.lacing.len(),
            res.0 ==> final(pg).segment_cnt == (old(pg).segment_cnt + pck_cont@.len() / 255 + 1)
                % 255,
            res.0 ==> final(pg).sequence_num == old(pg).sequence_num + (old(pg).segment_cnt
                + pck_cont@.len() / 255 + 1) / 255,
            !res.0 ==> final(pg).segment_cnt == 255,
    {
        let ghost pck = pck_cont@;
        let ghost pg0 = pg@;
        let ghost seq0 = pg0.sequence_num as int;
        let ghost cnt0 = pg0.lacing.len() as int;

        let cont_len = pck_cont.len();
        pg.cur_pg_data.push((pck_cont, absgp));
        let ghost pg1 = pg@;
        proof {
            assert(pg1.data =~= pg0.data.push((pck, absgp)));
            assert(pg1 == PageValuesView { data: pg0.data.push((pck, absgp)), ..pg0 });
            lemma_lace_start(pg0, pck, absgp);
        }

        let last_data_segment_size = (cont_len % 255) as u8;
        let needed_segments = (cont_len / 255) + 1;
        proof {
            lemma_lace_segments(serial, pg1, pck.len(), needed_segments as nat, is_end_stream);
        }
        let mut segment_i: usize = 0;
        let ghost mut calls: Seq<(Seq<u8>, bool)> = Seq::empty();
        proof {
            lemma_sent_nothing();
        }
        while segment_i < needed_segments
            invariant
                cont_len == pck.len(),
                needed_segments == cont_len / 255 + 1,
                last_data_segment_size == (cont_len % 255) as u8,
                0 <= segment_i <= needed_segments,
                pg.segment_cnt < 255,
                pg@.lacing.len() == pg.segment_cnt,
                lace_inv(pg1, pck.len(), 0),
                pg1 == (PageValuesView { data: old(pg)@.data.push((pck, absgp)), ..old(pg)@ }),
                pck == pck_cont@,
                pg@ == lace_segments(serial, pg1, pck.len(), segment_i as nat, is_end_stream).0,
                sent_as(
                    calls,
                    true,
                    lace_segments(serial, pg1, pck.len(), segment_i as nat, is_end_stream).1,
                ),
                lace_inv(pg@, pck.len(), segment_i as int),
                segment_i < needed_segments ==> pg@.data.last() == (pck, absgp),
                pg.sequence_num == seq0 + (cnt0 + segment_i) / 255,
                pg.segment_cnt == (cnt0 + segment_i) % 255,
                seq0 + (cnt0 + needed_segments) / 255 <= u32::MAX,
                0 <= cnt0 < 255,
            decreases needed_segments - segment_i,
        {
            proof {
                lemma_lace_step(serial, pg@, pck.len(), segment_i as int, is_end_stream);
            }
            let ghost before = pg@;
            let (ok, c) = Self::lace_step(
                serial,
                pg,
                segment_i,
                cont_len,
                needed_segments,
                last_data_segment_size,
                is_end_stream,
                sink,
            );
            proof {
                let (pp, oo) = lace_segments(serial, pg1, pck.len(), segment_i as nat, is_end_stream);
                let (pp2, oo2) = lace_segment(serial, pp, pck.len(), segment_i as int, is_end_stream);
                lemma_sent_seq(calls, oo, c@, ok, oo2);
                calls = calls + c@;
                assert(lace_segments(serial, pg1, pck.len(), (segment_i + 1) as nat, is_end_stream).1
                    == oo + oo2);
            }
            if !ok {
                proof {
                    lemma_lace_segments(serial, pg1, pck.len(), needed_segments as nat, is_end_stream);
                    lemma_lace_segments_prefix(
                        serial,
                        pg1,
                        pck.len(),
                        (segment_i + 1) as nat,
                        needed_segments as nat,
                        is_end_stream,
                    );
                    lemma_sent_within(
                        calls,
                        lace_segments(serial, pg1, pck.len(), (segment_i + 1) as nat, is_end_stream).1,
                        lace_segments(serial, pg1, pck.len(), needed_segments as nat, is_end_stream).1,
                    );
                    let k = segment_i as int;
                    assert(lace_segments(serial, pg1, pck.len(), k as nat, is_end_stream).0
                        == before);
                    assert(before.data.last().0.len() == pck.len());
                    let q = lace_segments(serial, pg1, pck.len(), k as nat, is_end_stream).0;
                    assert(q.lacing.len() + 1 == 255);
                    assert(pg@ == full_page(q, pck.len(), k));
                }
                return (false, Ghost(calls));
            }
            proof {
                if segment_i + 1 < needed_segments {
                    assert(pg@.data.last() == (pck, absgp));
                }
            }
            segment_i = segment_i + 1;
        }
        (true, Ghost(calls))
    }

    /// Writes a packet into the page of its stream, emitting the pages that
    /// become complete, and the current page too if `inf` asks for it, into `sink`.
    /// What is emitted is a stream of whole, well-formed pages. Returns whether
    /// every write to `sink` succeeded: at the first that fails it stops, and
    /// keeps the page it was writing in the stream's state, so that the calling
    /// code can retry.
    #[verifier::rlimit(40)]
    pub fn write_packet<S: PageSink>(
        &mut self,
        pck_cont: Vec<u8>,
        serial: u32,
        inf: PacketWriteEndInfo,
        absgp: u64,
        sink: &mut S,
    ) -> (ok: bool)
        requires
            writer_inv(old(self)@),
            stream_page(old(self)@, serial).lacing.len() < 255,
            stream_page(old(self)@, serial).sequence_num + pages_emitted(
                stream_page(old(self)@, serial).lacing.len() as int,
                pck_cont@.len(),
                inf,
            ) <= u32::MAX,
        ensures
            writer_inv(final(self)@),
            valid_pages(write_outcome(old(self)@, pck_cont@, serial, inf, absgp).1),
            final(self).sink_log().len() >= old(self).sink_log().len(),
            final(self).sink_log().take(old(self).sink_log().len() as int) == old(self).sink_log(),
            sent_as(
                final(self).sink_log().skip(old(self).sink_log().len() as int),
                ok,
                write_outcome(old(self)@, pck_cont@, serial, inf, absgp).1,
            ),
            ok ==> final(self)@ == write_outcome(old(self)@, pck_cont@, serial, inf, absgp).0,
            !ok ==> exists|k: int|
                #[trigger] failed_page(old(self)@, pck_cont@, serial, inf, absgp, k) matches Some(
                    f,
                ) && final(self)@ == (WriterView { page_vals: old(self)@.page_vals.insert(serial, f) }),
    {
        let ghost w0 = self@;
        let ghost log0 = self.sink_writes@;
        let ghost pck = pck_cont@;
        let ghost old_map = self.page_vals@;
        let ghost whole = write_outcome(w0, pck, serial, inf, absgp).1;
        let is_end_stream = inf == PacketWriteEndInfo::EndStream;
        let mut pg = self.take_stream_page(serial);
        let ghost pg0 = pg@;
        let ghost pg1 = PageValuesView { data: pg0.data.push((pck, absgp)), ..pg0 };
        let ghost n = pck.len() / 255 + 1;
        let ghost out = lace_segments(serial, pg1, pck.len(), n, is_end_stream).1;
        proof {
            lemma_write_outcome_valid(w0, pck, serial, inf, absgp);
        }
        let (ok, c) = Self::lace_packet(serial, &mut pg, pck_cont, absgp, is_end_stream, &mut *sink);
        let ghost mut calls = c@;
        if !ok {
            // Keep the full page that could not be written.
            let ghost m = self.page_vals@;
            let ghost f = pg@;
            self.page_vals.insert(serial, pg);
            proof {
                lemma_vals_insert(m, serial, pg);
                assert(vals_view(old_map).remove(serial).insert(serial, f) =~= vals_view(
                    old_map,
                ).insert(serial, f));
                let k = choose|k: int|
                    0 <= k < n && {
                        let q = #[trigger] lace_segments(serial, pg1, pck.len(), k as nat, is_end_stream).0;
                        &&& q.lacing.len() + 1 == 255
                        &&& f == full_page(q, pck.len(), k)
                    };
                assert(failed_page(w0, pck, serial, inf, absgp, k) == Some(f));
                lemma_writer_inv_insert(w0, serial, f);
                assert(out.is_prefix_of(whole)) by {
                    assert(out =~= whole.subrange(0, out.len() as int));
                }
                lemma_sent_within(calls, out, whole);
                self.sink_writes@ = log0 + calls;
                assert((log0 + calls).take(log0.len() as int) =~= log0);
                assert((log0 + calls).skip(log0.len() as int) =~= calls);
            }
            return false;
        }
        let ghost mut tail: Seq<u8> = Seq::empty();
        if inf != PacketWriteEndInfo::NormalPacket && pg.segment_cnt != 0 {
            // Write a page end
            let ghost q = pg@;
            let (ok2, c2) = Self::write_page(serial, &mut pg, is_end_stream, &mut *sink);
            proof {
                lemma_sent_seq(calls, out, c2@, ok2, page_bytes(serial, q, is_end_stream));
                calls = calls + c2@;
                assert(whole == out + page_bytes(serial, q, is_end_stream));
            }
            if !ok2 {
                // Keep the page that could not be written.
                let ghost m = self.page_vals@;
                self.page_vals.insert(serial, pg);
                proof {
                    lemma_vals_insert(m, serial, pg);
                    assert(vals_view(old_map).remove(serial).insert(serial, q) =~= vals_view(
                        old_map,
                    ).insert(serial, q));
                    assert(failed_page(w0, pck, serial, inf, absgp, n as int) == Some(q));
                    lemma_writer_inv_insert(w0, serial, q);
                    self.sink_writes@ = log0 + calls;
                    assert((log0 + calls).take(log0.len() as int) =~= log0);
                    assert((log0 + calls).skip(log0.len() as int) =~= calls);
                }
                return false;
            }
            proof {
                assert(pg@.lacing =~= lacings_upto(pg@, 0));
            }
        } else {
            proof {
                assert(whole =~= out);
            }
        }
        // When ending the logical bitstream there is no point in keeping
        // around page data.
        if !is_end_stream {
            let ghost m = self.page_vals@;
            let ghost f = pg@;
            self.page_vals.insert(serial, pg);
            proof {
                lemma_vals_insert(m, serial, pg);
                assert(vals_view(old_map).remove(serial).insert(serial, f) =~= vals_view(
                    old_map,
                ).insert(serial, f));
                lemma_writer_inv_insert(w0, serial, f);
            }
        } else {
            proof {
                lemma_writer_inv_remove(w0, serial);
            }
        }
        proof {
            self.sink_writes@ = log0 + calls;
            assert((log0 + calls).take(log0.len() as int) =~= log0);
            assert((log0 + calls).skip(log0.len() as int) =~= calls);
        }
        true
    }
}

/// Putting a page that is well formed, or full, in place of a stream's keeps
/// the writer's invariant; so does removing a stream.
proof fn lemma_writer_inv_insert(w: WriterView, serial: u32, pg: PageValuesView)
    requires
        writer_inv(w),
        values_wf(pg) || pg.lacing.len() == 255,
    ensures
        writer_inv(WriterView { page_vals: w.page_vals.insert(serial, pg) }),
{
    let w2 = WriterView { page_vals: w.page_vals.insert(serial, pg) };
    assert forall|k: u32| #[trigger] w2.page_vals.contains_key(k) implies values_wf(
        w2.page_vals[k],
    ) || w2.page_vals[k].lacing.len() == 255 by {
        if k != serial {
            assert(w.page_vals.contains_key(k));
        }
    }
}

/// What writing a packet emits, to a stream whose page is well formed, is a
/// stream of whole pages.
proof fn lemma_write_outcome_valid(
    w: WriterView,
    pck: Seq<u8>,
    serial: u32,
    inf: PacketWriteEndInfo,
    absgp: u64,
)
    requires
        values_wf(stream_page(w, serial)),
    ensures
        valid_pages(write_outcome(w, pck, serial, inf, absgp).1),
{
    let end_stream = inf == PacketWriteEndInfo::EndStream;
    let pg0 = stream_page(w, serial);
    let pg1 = PageValuesView { data: pg0.data.push((pck, absgp)), ..pg0 };
    lemma_lace_start(pg0, pck, absgp);
    let (p, out) = lace_segments(serial, pg1, pck.len(), pck.len() / 255 + 1, end_stream);
    lemma_lace_segments(serial, pg1, pck.len(), pck.len() / 255 + 1, end_stream);
    if inf != PacketWriteEndInfo::NormalPacket && p.lacing.len() != 0 {
        let tail = page_bytes(serial, p, end_stream);
        lemma_page_bytes_valid(serial, p, end_stream, Seq::empty());
        assert(tail + Seq::<u8>::empty() =~= tail);
        lemma_valid_pages_concat(out, tail);
    } else {
        assert(out + Seq::<u8>::empty() =~= out);
    }
}

proof fn lemma_writer_inv_remove(w: WriterView, serial: u32)
    requires
        writer_inv(w),
    ensures
        writer_inv(WriterView { page_vals: w.page_vals.remove(serial) }),
{
    let w2 = WriterView { page_vals: w.page_vals.remove(serial) };
    assert forall|k: u32| #[trigger] w2.page_vals.contains_key(k) implies values_wf(
        w2.page_vals[k],
    ) || w2.page_vals[k].lacing.len() == 255 by {
        assert(w.page_vals.contains_key(k));
    }
}

} // verus!
