//! What a reader gives back of what a writer wrote: packets written to logical
//! bitstreams, read back from the pages that the writer emitted, are the packets
//! that were written, stream by stream; and the pages of a stream are numbered
//! one after the other.

use vstd::prelude::*;
use vstd::seq_lib::lemma_flatten_alt_concat;
use crate::PacketView;
use crate::reading::{
    after_read, ends_flag, first_page_len, fresh_info, glue_needed, info_after_read,
    is_last_in_page, lacing_ends_continued, lacing_positions, lacing_split, lacing_sum,
    lemma_lacing_split, next_packet, next_packet_data, packet_slice, packets_read, page_last_flags,
    page_numbers,
    parsed_page, push_outcome, short_count, starts_with_page, trailing_first, unread, with_page,
    PageInfoView, ReaderView,
};
use crate::writing::{
    finishing_count, full_page, lace_inv, lace_segment, lace_segments, lacings_upto,
    lemma_lace_segments, lemma_lace_start, lemma_lace_step, lemma_lacings_len, lemma_lacings_sum,
    lemma_page_end_flushes, lemma_page_header, lemma_write_keeps_wf, page_body, page_bytes,
    page_checksum, page_flags, page_granule, page_header, page_pieces, page_ready, page_reset,
    packets_written, pages_emitted, piece, piece_complete, piece_lacing, pieces_valid,
    stream_page, values_wf, write_outcome, writer_wf, PacketWriteEndInfo, PageValuesView,
    WriterView,
};

verus! {

// ---------------------------------------------------------------------------
// Where the pieces of a page lie in its body.

/// The offset in the page body of the piece of packet `j`.
pub open spec fn piece_offset(pg: PageValuesView, j: int) -> int {
    page_pieces(pg).take(j).flatten_alt().len() as int
}

/// The (offset, length) of the first `k` pieces of the page.
pub open spec fn piece_positions(pg: PageValuesView, k: int) -> Seq<(int, int)> {
    Seq::new(k as nat, |j: int| (piece_offset(pg, j), piece(pg, j).len() as int))
}

/// Splitting a lacing that ends in full segments adds them to the open packet.
proof fn lemma_split_full(a: Seq<u8>, q: nat)
    ensures
        ({
            let (done, offs, cur) = lacing_split(a);
            lacing_split(a + Seq::new(q, |t: int| 255u8)) == (done, offs, cur + 255 * q)
        }),
    decreases q,
{
    let full = Seq::new(q, |t: int| 255u8);
    if q == 0 {
        assert(a + full =~= a);
    } else {
        lemma_split_full(a, (q - 1) as nat);
        assert((a + full).drop_last() =~= a + Seq::new((q - 1) as nat, |t: int| 255u8));
        assert((a + full).last() == 255u8);
    }
}

/// Splitting the lacing values of one more piece, after a lacing whose packets
/// all end: a complete piece adds a packet, an incomplete one opens a packet.
proof fn lemma_split_piece(a: Seq<u8>, m: int, complete: bool)
    requires
        lacing_split(a).2 == 0,
        m >= 0,
        complete || m % 255 == 0,
    ensures
        ({
            let (done, offs, cur) = lacing_split(a);
            lacing_split(a + piece_lacing(m, complete)) == if complete {
                (done.push((offs, m)), offs + m, 0int)
            } else {
                (done, offs, m)
            }
        }),
{
    let q = (m / 255) as nat;
    let full = Seq::new(q, |t: int| 255u8);
    lemma_split_full(a, q);
    if complete {
        let r = (m % 255) as u8;
        let b = a + full;
        assert(a + piece_lacing(m, complete) =~= b.push(r));
        assert(b.push(r).drop_last() =~= b);
        assert(255 * q + r == m);
    } else {
        assert(a + piece_lacing(m, complete) =~= a + full);
        assert(255 * q == m);
    }
}

/// The offset of the piece after piece `j` is that of piece `j` plus its size.
proof fn lemma_piece_offset_step(pg: PageValuesView, j: int)
    requires
        0 <= j < pg.data.len(),
    ensures
        piece_offset(pg, j + 1) == piece_offset(pg, j) + piece(pg, j).len(),
        page_pieces(pg).take(j + 1).flatten_alt() == page_pieces(pg).take(j).flatten_alt()
            + piece(pg, j),
{
    let ps = page_pieces(pg);
    assert(ps.take(j + 1).drop_last() =~= ps.take(j));
    assert(ps.take(j + 1).last() == piece(pg, j));
}

/// The lacing values of the first `k` pieces split into the positions of those
/// pieces; a last piece that continues on the next page stays open.
proof fn lemma_split_upto(pg: PageValuesView, k: int)
    requires
        pieces_valid(pg),
        0 <= k <= pg.data.len(),
        pg.this_overflow is Some ==> piece(pg, pg.data.len() - 1).len() % 255 == 0,
    ensures
        lacing_split(lacings_upto(pg, k)) == if k >= 1 && !piece_complete(pg, k - 1) {
            (piece_positions(pg, k - 1), piece_offset(pg, k - 1), piece(pg, k - 1).len() as int)
        } else {
            (piece_positions(pg, k), piece_offset(pg, k), 0int)
        },
    decreases k,
{
    if k == 0 {
        assert(piece_positions(pg, 0) =~= Seq::<(int, int)>::empty());
        assert(page_pieces(pg).take(0) =~= Seq::<Seq<u8>>::empty());
    } else {
        lemma_split_upto(pg, k - 1);
        let m = piece(pg, k - 1).len() as int;
        let c = piece_complete(pg, k - 1);
        if k - 1 >= 1 {
            assert(piece_complete(pg, k - 2));
        }
        lemma_split_piece(lacings_upto(pg, k - 1), m, c);
        lemma_piece_offset_step(pg, k - 1);
        if c {
            assert(piece_positions(pg, k) =~= piece_positions(pg, k - 1).push(
                (piece_offset(pg, k - 1), m),
            ));
        }
    }
}

/// The piece of packet `j` lies at its position in the page body.
proof fn lemma_piece_in_body(pg: PageValuesView, j: int)
    requires
        0 <= j < pg.data.len(),
    ensures
        piece_offset(pg, j) + piece(pg, j).len() <= page_body(pg).len(),
        page_body(pg).subrange(piece_offset(pg, j), piece_offset(pg, j) + piece(pg, j).len())
            == piece(pg, j),
{
    let ps = page_pieces(pg);
    lemma_piece_offset_step(pg, j);
    lemma_flatten_alt_concat(ps.take(j + 1), ps.skip(j + 1));
    assert(ps.take(j + 1) + ps.skip(j + 1) =~= ps);
    let head = ps.take(j).flatten_alt();
    assert(page_body(pg) == head + piece(pg, j) + ps.skip(j + 1).flatten_alt());
    assert(page_body(pg).subrange(head.len() as int, (head.len() + piece(pg, j).len()) as int)
        =~= piece(pg, j));
}

// ---------------------------------------------------------------------------
// A page that the writer emits, as the page parser sees it.

/// The flags byte of an emitted page says whether it continues a packet, whether
/// it is the first page of its stream and whether it is the last one.
proof fn lemma_page_flags(pg: PageValuesView, last_page: bool)
    ensures
        (page_flags(pg, last_page) & 1 != 0) == (pg.last_overflow is Some),
        (page_flags(pg, last_page) & 2 != 0) == pg.first_page,
        (page_flags(pg, last_page) & 4 != 0) == last_page,
{
    let a = pg.last_overflow is Some;
    let b = pg.first_page;
    let c = last_page;
    let f = page_flags(pg, last_page);
    assert(f == (if a { 1u8 } else { 0u8 }) + (if b { 2u8 } else { 0u8 }) + (if c {
        4u8
    } else {
        0u8
    }));
    assert((f & 1 != 0) == a && (f & 2 != 0) == b && (f & 4 != 0) == c) by (bit_vector)
        requires
            f == (if a { 1u8 } else { 0u8 }) + (if b { 2u8 } else { 0u8 }) + (if c {
                4u8
            } else {
                0u8
            }),
    ;
}

/// The last lacing value of a page with at least one piece is 255 exactly when
/// its last piece continues on the next page; the number of lacing values below
/// 255 is the number of packets that end in the page.
proof fn lemma_lacing_ends(pg: PageValuesView)
    requires
        page_ready(pg),
    ensures
        pg.data.len() >= 1,
        lacing_ends_continued(pg.lacing, pg.last_overflow is Some) == (pg.this_overflow is Some),
        short_count(pg.lacing) == finishing_count(pg),
        lacing_positions(pg.lacing, pg.this_overflow is Some) == piece_positions(
            pg,
            pg.data.len() as int,
        ),
{
    let n = pg.data.len() as int;
    if n == 0 {
        assert(lacings_upto(pg, 0) == Seq::<u8>::empty());
    }
    let m = piece(pg, n - 1).len() as int;
    let c = piece_complete(pg, n - 1);
    let front = lacings_upto(pg, n - 1);
    let tail = piece_lacing(m, c);
    assert(pg.lacing == front + tail);
    if c {
        assert(tail.last() == (m % 255) as u8);
        assert(pg.lacing.last() == tail.last());
    } else {
        assert(m / 255 >= 1);
        assert(tail[0] == 255u8);
        assert(tail.len() == m / 255);
        assert(pg.lacing.last() == tail.last());
    }
    lemma_split_upto(pg, n);
    lemma_lacing_split(pg.lacing);
    if !c {
        assert(piece_positions(pg, n - 1).push((piece_offset(pg, n - 1), m)) =~= piece_positions(
            pg,
            n,
        ));
    }
}

/// What the page parser makes of a page that the writer emits, followed by
/// anything: a whole page that it accepts, with the stream serial, the flags, the
/// packet positions and the body that the writer put in.
pub proof fn lemma_parse_emitted_page(
    serial: u32,
    pg: PageValuesView,
    last_page: bool,
    rest: Seq<u8>,
)
    requires
        page_ready(pg),
    ensures
        ({
            let s = page_bytes(serial, pg, last_page) + rest;
            let p = parsed_page(s);
            &&& starts_with_page(s)
            &&& s.skip(first_page_len(s)) == rest
            &&& p.stream_serial == serial
            &&& p.base.starts_with_continued == (pg.last_overflow is Some)
            &&& p.base.first_page == pg.first_page
            &&& p.base.last_page == last_page
            &&& p.base.sequence_num == pg.sequence_num
            &&& p.base.absgp == page_granule(pg)
            &&& p.base.ends_with_continued == (pg.this_overflow is Some)
            &&& p.base.packet_positions == piece_positions(pg, pg.data.len() as int)
            &&& p.packet_count == finishing_count(pg)
            &&& p.buf == page_body(pg)
        }),
{
    reveal(page_bytes);
    let crc = page_checksum(serial, pg, last_page);
    let h = page_header(serial, pg, last_page, crc);
    lemma_page_header(serial, pg, last_page, crc);
    lemma_lacings_sum(pg, pg.data.len() as int);
    assert(page_pieces(pg).take(pg.data.len() as int) =~= page_pieces(pg));
    let body = page_body(pg);
    let s = page_bytes(serial, pg, last_page) + rest;
    let nseg = pg.lacing.len() as int;
    assert(s =~= h + pg.lacing + body + rest);
    assert(s.take(27) =~= h);
    assert(s.take(4) =~= h.take(4));
    assert(s[26] == h[26]);
    assert(s.subrange(22, 26) =~= h.subrange(22, 26));
    assert(s.subrange(27, 27 + nseg) =~= pg.lacing);
    let n = 27 + nseg + lacing_sum(pg.lacing);
    assert(first_page_len(s) == n);
    assert(s.subrange(27 + nseg, n) =~= body);
    assert(s.skip(n) =~= rest);
    lemma_page_flags(pg, last_page);
    lemma_lacing_ends(pg);
}

// ---------------------------------------------------------------------------
// A reader in step with a writer.

/// The packets that have data in the page in assembly, whole.
pub open spec fn pending(pg: PageValuesView) -> Seq<Seq<u8>> {
    pg.data.map_values(|e: (Seq<u8>, u64)| e.0)
}

/// The packets that end in the page.
pub open spec fn finished(pg: PageValuesView) -> Seq<Seq<u8>> {
    pending(pg).take(finishing_count(pg))
}

/// The data of the packets `x`.
pub open spec fn datas(x: Seq<PacketView>) -> Seq<Seq<u8>> {
    x.map_values(|p: PacketView| p.data)
}

/// Every packet of `x` belongs to stream `serial`.
pub open spec fn all_of(x: Seq<PacketView>, serial: u32) -> bool {
    forall|i: int| 0 <= i < x.len() ==> #[trigger] x[i].stream_serial == serial
}

/// The packets `a` given back before those of `r`, if `r` is given back at all.
pub open spec fn prepend(a: Seq<PacketView>, r: Option<Seq<PacketView>>) -> Option<
    Seq<PacketView>,
> {
    match r {
        Some(x) => Some(a + x),
        None => None,
    }
}

/// The reader `v` is in step with the writer of stream `serial`, whose page in
/// assembly is `pg`, after giving back `d` packets of the stream: it has given
/// back every packet that ended in the pages emitted so far, holds the
/// beginning of the packet that continues in `pg`, and knows whether that
/// packet is the first of the stream.
pub open spec fn in_step(pg: PageValuesView, v: ReaderView, serial: u32, d: nat) -> bool {
    &&& v.stream_with_stuff is None
    &&& !v.has_seeked
    &&& pg.first_page == !v.page_infos.contains_key(serial)
    &&& pg.first_page ==> pg.last_overflow is None && d == 0
    &&& !pg.first_page ==> {
        let i = v.page_infos[serial];
        &&& i.base.ends_with_continued == (pg.last_overflow is Some)
        &&& 0 <= i.packet_idx
        &&& i.packet_idx + ends_flag(i.base) == i.base.packet_positions.len()
        &&& match pg.last_overflow {
            Some(x) => {
                &&& pg.data.len() >= 1
                &&& i.overlap.flatten_alt() + packet_slice(i) == pg.data[0].0.take(x)
                &&& trailing_first(i) == (d == 0)
            },
            None => i.overlap == Seq::<Seq<u8>>::empty() && d >= 1,
        }
    }
}

/// The packets `x`, given back after `d` packets of their stream, are flagged
/// first of the stream only for the very first packet, and last of the stream
/// only for the last of them if `last` says so.
pub open spec fn stream_flags(x: Seq<PacketView>, d: nat, last: bool) -> bool {
    forall|k: int|
        0 <= k < x.len() ==> (#[trigger] x[k]).first_in_stream == (d + k == 0)
            && x[k].last_in_stream == (last && k + 1 == x.len())
}

/// The reassembly state of stream `serial` once `j` packets of its page were read.
pub open spec fn info_at(i0: PageInfoView, j: int, glue: bool) -> PageInfoView {
    PageInfoView {
        packet_idx: j,
        overlap: if j > 0 && glue {
            Seq::empty()
        } else {
            i0.overlap
        },
        ..i0
    }
}

/// The reader once `j` of the `cnt` packets that end in the page of stream
/// `serial` were read.
pub open spec fn reader_at(
    m: Map<u32, PageInfoView>,
    serial: u32,
    i0: PageInfoView,
    j: int,
    cnt: int,
    glue: bool,
) -> ReaderView {
    ReaderView {
        page_infos: m.insert(serial, info_at(i0, j, glue)),
        stream_with_stuff: if j < cnt {
            Some(serial)
        } else {
            None
        },
        has_seeked: false,
    }
}

/// Nothing given back before what `r` gives back is what `r` gives back.
proof fn lemma_prepend_empty(r: Option<Seq<PacketView>>)
    ensures
        prepend(Seq::empty(), r) == r,
{
    if let Some(x) = r {
        assert(Seq::<PacketView>::empty() + x =~= x);
    }
}

/// Giving back `a`, then `b`, then what `r` gives back.
proof fn lemma_prepend_twice(a: Seq<PacketView>, b: Seq<PacketView>, r: Option<Seq<PacketView>>)
    ensures
        prepend(a, prepend(b, r)) == prepend(a + b, r),
{
    if let Some(x) = r {
        assert(a + (b + x) =~= (a + b) + x);
    }
}

/// The data and the streams of packets given back one after the other.
proof fn lemma_packets_concat(a: Seq<PacketView>, b: Seq<PacketView>, serial: u32)
    ensures
        datas(a + b) == datas(a) + datas(b),
        all_of(a, serial) && all_of(b, serial) ==> all_of(a + b, serial),
{
    assert(datas(a + b) =~= datas(a) + datas(b));
    if all_of(a, serial) && all_of(b, serial) {
        assert forall|i: int| 0 <= i < (a + b).len() implies #[trigger] (a + b)[i].stream_serial
            == serial by {
            if i >= a.len() {
                assert((a + b)[i] == b[i - a.len()]);
            }
        }
    }
}

/// Reading the packets that end in an emitted page gives back those packets,
/// whole (the first one glued to its beginning on earlier pages), as packets of
/// the page's stream.
#[verifier::spinoff_prover]
#[verifier::rlimit(40)]
proof fn lemma_read_pieces(
    serial: u32,
    pg: PageValuesView,
    m: Map<u32, PageInfoView>,
    i0: PageInfoView,
    j: int,
    first: bool,
    rest: Seq<u8>,
) -> (x: Seq<PacketView>)
    requires
        page_ready(pg),
        0 <= j <= finishing_count(pg),
        i0.base.packet_positions == piece_positions(pg, pg.data.len() as int),
        i0.page_body == page_body(pg),
        i0.base.ends_with_continued == (pg.this_overflow is Some),
        i0.base.starts_with_continued == (pg.last_overflow is Some),
        pg.last_overflow matches Some(x) ==> i0.overlap.flatten_alt() == pg.data[0].0.take(x),
        first == if i0.base.starts_with_continued {
            i0.continued_first
        } else {
            i0.base.first_page
        },
    ensures
        datas(x) == pending(pg).subrange(j, finishing_count(pg)),
        all_of(x, serial),
        forall|k: int|
            0 <= k < x.len() ==> (#[trigger] x[k]).first_in_stream == (first && j + k == 0)
                && x[k].last_in_stream == (i0.base.last_page && j + k + 1 == finishing_count(pg)),
        ({
            let cnt = finishing_count(pg);
            let glue = pg.last_overflow is Some;
            packets_read(reader_at(m, serial, i0, j, cnt, glue), rest) == prepend(
                x,
                packets_read(reader_at(m, serial, i0, cnt, cnt, glue), rest),
            )
        }),
    decreases finishing_count(pg) - j,
{
    let cnt = finishing_count(pg);
    let glue = pg.last_overflow is Some;
    let n = pg.data.len() as int;
    lemma_lacing_ends(pg);
    let vj = reader_at(m, serial, i0, j, cnt, glue);
    if j == cnt {
        assert(pending(pg).subrange(j, cnt) =~= datas(Seq::<PacketView>::empty()));
        lemma_prepend_empty(packets_read(vj, rest));
        Seq::empty()
    } else {
        let ij = info_at(i0, j, glue);
        assert(vj.page_infos[serial] == ij);
        assert(unread(vj) == cnt - j);
        // The packet that is read is the one that ends at position j.
        lemma_piece_in_body(pg, j);
        assert(packet_slice(ij) == piece(pg, j));
        assert(piece_complete(pg, j));
        let d = pg.data[j].0;
        if j == 0 && glue {
            assert(glue_needed(ij));
            let x = pg.last_overflow->0;
            assert(d.take(x) + d.subrange(x, d.len() as int) =~= d);
            assert(next_packet_data(ij) == d);
        } else {
            assert(!glue_needed(ij));
            assert(piece(pg, j) =~= d);
            assert(next_packet_data(ij) == d);
        }
        assert(info_after_read(ij) == info_at(i0, j + 1, glue));
        assert(is_last_in_page(ij) == (j + 1 == cnt));
        let vn = reader_at(m, serial, i0, j + 1, cnt, glue);
        assert(after_read(vj, serial).page_infos =~= vn.page_infos);
        assert(after_read(vj, serial) == vn);
        let x1 = lemma_read_pieces(serial, pg, m, i0, j + 1, first, rest);
        let pk = next_packet(ij, serial);
        lemma_prepend_twice(seq![pk], x1, packets_read(reader_at(m, serial, i0, cnt, cnt, glue), rest));
        lemma_packets_concat(seq![pk], x1, serial);
        assert(pending(pg)[j] == d);
        assert(datas(seq![pk]) =~= seq![d]);
        assert(seq![d] + pending(pg).subrange(j + 1, cnt) =~= pending(pg).subrange(j, cnt));
        let x = seq![pk] + x1;
        assert forall|k: int| 0 <= k < x.len() implies (#[trigger] x[k]).first_in_stream == (first
            && j + k == 0) && x[k].last_in_stream == (i0.base.last_page && j + k + 1 == cnt) by {
            if k > 0 {
                assert(x[k] == x1[k - 1]);
            }
        }
        x
    }
}

/// The beginning of a packet held by the reader, followed by the next piece of
/// it, is the beginning followed by that piece.
proof fn lemma_flatten_push(ov: Seq<Seq<u8>>, x: Seq<u8>)
    ensures
        ov.push(x).flatten_alt() == ov.flatten_alt() + x,
{
    assert(ov.push(x).drop_last() =~= ov);
}

/// A reader in step with the writer of stream `serial` reads an emitted page: it
/// accepts it, gives back the packets that end in it, as packets of that
/// stream, and is then in step with the page that follows. What it holds of
/// other streams does not change.
#[verifier::spinoff_prover]
#[verifier::rlimit(40)]
proof fn lemma_page_read(
    serial: u32,
    pg: PageValuesView,
    last_page: bool,
    v: ReaderView,
    d: nat,
    rest: Seq<u8>,
) -> (r: (ReaderView, Seq<PacketView>))
    requires
        page_ready(pg),
        in_step(pg, v, serial, d),
    ensures
        in_step(page_reset(pg), r.0, serial, d + r.1.len()),
        r.0.page_infos.remove(serial) == v.page_infos.remove(serial),
        datas(r.1) == finished(pg),
        all_of(r.1, serial),
        stream_flags(r.1, d, last_page),
        packets_read(v, page_bytes(serial, pg, last_page) + rest) == prepend(
            r.1,
            packets_read(r.0, rest),
        ),
{
    let s = page_bytes(serial, pg, last_page) + rest;
    lemma_parse_emitted_page(serial, pg, last_page, rest);
    lemma_lacing_ends(pg);
    let p = parsed_page(s);
    let n = pg.data.len() as int;
    let cnt = finishing_count(pg);
    let glue = pg.last_overflow is Some;
    // The page the reader takes, and what it keeps of the packet that continues in it.
    let ov = if !v.page_infos.contains_key(serial) {
        Seq::<Seq<u8>>::empty()
    } else if glue {
        v.page_infos[serial].overlap.push(packet_slice(v.page_infos[serial]))
    } else {
        v.page_infos[serial].overlap
    };
    let cf = v.page_infos.contains_key(serial) && glue && trailing_first(v.page_infos[serial]);
    let v1 = with_page(v, p, ov, cf);
    assert(push_outcome(v, p) == Some(v1));
    assert(packets_read(v, s) == packets_read(v1, rest));
    let i0 = fresh_info(p, ov, cf);
    if let Some(x) = pg.last_overflow {
        let inf = v.page_infos[serial];
        lemma_flatten_push(inf.overlap, packet_slice(inf));
        assert(ov.flatten_alt() == pg.data[0].0.take(x));
    }
    let m = v.page_infos;
    assert(v1 == reader_at(m, serial, i0, 0, cnt, glue)) by {
        assert(info_at(i0, 0, glue) == i0);
    }
    let x = lemma_read_pieces(serial, pg, m, i0, 0, d == 0, rest);
    assert(x.len() == cnt) by {
        assert(datas(x).len() == x.len());
    }
    assert(pending(pg).subrange(0, cnt) =~= finished(pg));
    let v2 = reader_at(m, serial, i0, cnt, cnt, glue);
    assert(v2.page_infos.remove(serial) =~= m.remove(serial));
    // The reader is in step with the next page.
    let ie = info_at(i0, cnt, glue);
    assert(v2.page_infos[serial] == ie);
    let pr = page_reset(pg);
    if let Some(y) = pg.this_overflow {
        assert(cnt == n - 1);
        lemma_piece_in_body(pg, cnt);
        assert(packet_slice(ie) == piece(pg, cnt));
        let d = pg.data[n - 1].0;
        assert(pr.data[0].0 == d);
        if cnt > 0 {
            assert(piece(pg, cnt) =~= d.take(y));
            assert(ie.overlap == Seq::<Seq<u8>>::empty());
            assert(ie.overlap.flatten_alt() + packet_slice(ie) =~= d.take(y));
        } else if let Some(x) = pg.last_overflow {
            assert(ie.overlap == ov);
            assert(d.take(x) + d.subrange(x, y) =~= d.take(y));
        } else {
            assert(ie.overlap == Seq::<Seq<u8>>::empty());
            assert(ie.overlap.flatten_alt() + packet_slice(ie) =~= d.take(y));
        }
    }
    (v2, x)
}

/// The packets of a page that end in it, then those still pending after it was
/// emitted, are the packets that had data in it.
proof fn lemma_finished_pending(pg: PageValuesView)
    requires
        page_ready(pg),
    ensures
        finished(pg) + pending(page_reset(pg)) == pending(pg),
{
    lemma_lacing_ends(pg);
    if pg.this_overflow is Some {
        assert(pending(page_reset(pg)) =~= seq![pending(pg).last()]);
    }
    assert(finished(pg) + pending(page_reset(pg)) =~= pending(pg));
}

/// The flags of packets given back one after the other: none of the first ones
/// is flagged last of the stream.
proof fn lemma_flags_concat(a: Seq<PacketView>, b: Seq<PacketView>, d: nat, last: bool)
    requires
        stream_flags(a, d, false),
        stream_flags(b, d + a.len(), last),
        last ==> b.len() >= 1,
    ensures
        stream_flags(a + b, d, last),
{
    assert forall|k: int| 0 <= k < (a + b).len() implies (#[trigger] (a + b)[k]).first_in_stream
        == (d + k == 0) && (a + b)[k].last_in_stream == (last && k + 1 == (a + b).len()) by {
        if k >= a.len() {
            assert((a + b)[k] == b[k - a.len()]);
        } else {
            assert((a + b)[k] == a[k]);
        }
    }
}

/// Lacing the segments of a packet, with a reader in step with the writer: the
/// reader reads the pages emitted on the way, and stays in step.
#[verifier::spinoff_prover]
#[verifier::rlimit(40)]
proof fn lemma_lace_read(
    serial: u32,
    pg1: PageValuesView,
    len: nat,
    k: nat,
    end_stream: bool,
    v: ReaderView,
    d: nat,
    rest: Seq<u8>,
) -> (r: (ReaderView, Seq<PacketView>))
    requires
        k <= len / 255 + 1,
        lace_inv(pg1, len, 0),
        in_step(pg1, v, serial, d),
    ensures
        ({
            let (p, out) = lace_segments(serial, pg1, len, k, end_stream);
            &&& in_step(p, r.0, serial, d + r.1.len())
            &&& r.0.page_infos.remove(serial) == v.page_infos.remove(serial)
            &&& datas(r.1) + pending(p) == pending(pg1)
            &&& all_of(r.1, serial)
            &&& stream_flags(
                r.1,
                d,
                end_stream && k == len / 255 + 1 && p.lacing.len() == 0,
            )
            &&& packets_read(v, out + rest) == prepend(r.1, packets_read(r.0, rest))
        }),
    decreases k,
{
    if k == 0 {
        assert(Seq::<u8>::empty() + rest =~= rest);
        lemma_prepend_empty(packets_read(v, rest));
        assert(datas(Seq::<PacketView>::empty()) + pending(pg1) =~= pending(pg1));
        (v, Seq::empty())
    } else {
        let (p, out) = lace_segments(serial, pg1, len, (k - 1) as nat, end_stream);
        let (p2, out2) = lace_segment(serial, p, len, k - 1, end_stream);
        lemma_lace_segments(serial, pg1, len, (k - 1) as nat, end_stream);
        lemma_lace_step(serial, p, len, k - 1, end_stream);
        let r1 = lemma_lace_read(
            serial,
            pg1,
            len,
            (k - 1) as nat,
            end_stream,
            v,
            d,
            out2 + rest,
        );
        assert((out + out2) + rest =~= out + (out2 + rest));
        if p.lacing.len() + 1 == 255 {
            let f = full_page(p, len, k - 1);
            let last = !(k < len / 255 + 1) && end_stream;
            let r2 = lemma_page_read(serial, f, last, r1.0, d + r1.1.len(), rest);
            lemma_finished_pending(f);
            lemma_prepend_twice(r1.1, r2.1, packets_read(r2.0, rest));
            lemma_packets_concat(r1.1, r2.1, serial);
            assert(datas(r1.1) + finished(f) + pending(p2) =~= datas(r1.1) + (finished(f)
                + pending(p2)));
            assert(r2.0.page_infos.remove(serial) == v.page_infos.remove(serial));
            if last {
                lemma_lacing_ends(f);
                assert(r2.1.len() >= 1) by {
                    assert(datas(r2.1).len() == r2.1.len());
                }
            }
            lemma_flags_concat(r1.1, r2.1, d, last);
            (r2.0, r1.1 + r2.1)
        } else {
            assert(out2 + rest =~= rest);
            r1
        }
    }
}

/// Writing a packet, with a reader in step with the writer: the reader reads the
/// pages emitted, as packets of the stream, stays in step, and has read every
/// packet once the writer was asked to end a page. What it holds of other
/// streams does not change.
#[verifier::spinoff_prover]
#[verifier::rlimit(40)]
proof fn lemma_write_read(
    w: WriterView,
    serial: u32,
    pck: Seq<u8>,
    inf: PacketWriteEndInfo,
    absgp: u64,
    v: ReaderView,
    d: nat,
    rest: Seq<u8>,
) -> (r: (ReaderView, PageValuesView, Seq<PacketView>))
    requires
        writer_wf(w),
        in_step(stream_page(w, serial), v, serial, d),
    ensures
        ({
            let (w2, out) = write_outcome(w, pck, serial, inf, absgp);
            &&& packets_read(v, out + rest) == prepend(r.2, packets_read(r.0, rest))
            &&& datas(r.2) + pending(r.1) == pending(stream_page(w, serial)).push(pck)
            &&& all_of(r.2, serial)
            &&& stream_flags(r.2, d, inf == PacketWriteEndInfo::EndStream)
            &&& in_step(r.1, r.0, serial, d + r.2.len())
            &&& r.0.page_infos.remove(serial) == v.page_infos.remove(serial)
            &&& values_wf(r.1)
            &&& w2.page_vals == if inf == PacketWriteEndInfo::EndStream {
                w.page_vals.remove(serial)
            } else {
                w.page_vals.insert(serial, r.1)
            }
            &&& inf != PacketWriteEndInfo::NormalPacket ==> pending(r.1) == Seq::<Seq<u8>>::empty()
        }),
{
    let end_stream = inf == PacketWriteEndInfo::EndStream;
    let pg0 = stream_page(w, serial);
    assert(values_wf(pg0)) by {
        if !w.page_vals.contains_key(serial) {
            assert(pg0.lacing =~= lacings_upto(pg0, 0));
        }
    }
    let pg1 = PageValuesView { data: pg0.data.push((pck, absgp)), ..pg0 };
    let n = pck.len() / 255 + 1;
    lemma_lace_start(pg0, pck, absgp);
    assert(pending(pg1) =~= pending(pg0).push(pck));
    if let Some(x) = pg1.last_overflow {
        assert(pg1.data[0] == pg0.data[0]);
    }
    let (p2, out) = lace_segments(serial, pg1, pck.len(), n, end_stream);
    lemma_lace_segments(serial, pg1, pck.len(), n, end_stream);
    if inf != PacketWriteEndInfo::NormalPacket && p2.lacing.len() != 0 {
        let out2 = page_bytes(serial, p2, end_stream);
        let r1 = lemma_lace_read(serial, pg1, pck.len(), n, end_stream, v, d, out2 + rest);
        assert((out + out2) + rest =~= out + (out2 + rest));
        let r2 = lemma_page_read(serial, p2, end_stream, r1.0, d + r1.1.len(), rest);
        lemma_finished_pending(p2);
        lemma_prepend_twice(r1.1, r2.1, packets_read(r2.0, rest));
        lemma_packets_concat(r1.1, r2.1, serial);
        lemma_lacing_ends(p2);
        assert(r2.1.len() >= 1) by {
            assert(datas(r2.1).len() == r2.1.len());
        }
        lemma_flags_concat(r1.1, r2.1, d, end_stream);
        let pg3 = page_reset(p2);
        assert(pg3.lacing =~= lacings_upto(pg3, 0));
        assert(pending(pg3) =~= Seq::<Seq<u8>>::empty());
        assert(datas(r1.1) + finished(p2) + pending(pg3) =~= datas(r1.1) + (finished(p2)
            + pending(pg3)));
        (r2.0, pg3, r1.1 + r2.1)
    } else {
        let r1 = lemma_lace_read(serial, pg1, pck.len(), n, end_stream, v, d, rest);
        assert(out + Seq::<u8>::empty() =~= out);
        if inf != PacketWriteEndInfo::NormalPacket {
            lemma_lacings_len(p2, p2.data.len() as int);
            assert(pending(p2) =~= Seq::<Seq<u8>>::empty());
        }
        (r1.0, p2, r1.1)
    }
}

// ---------------------------------------------------------------------------
// What a reader gives back of a whole run of writes.

/// The data of the packets written to stream `s`, in order.
pub open spec fn written_to(pcks: Seq<(u32, Seq<u8>, PacketWriteEndInfo, u64)>, s: u32) -> Seq<
    Seq<u8>,
>
    decreases pcks.len(),
{
    if pcks.len() == 0 {
        Seq::empty()
    } else if pcks.last().0 == s {
        written_to(pcks.drop_last(), s).push(pcks.last().1)
    } else {
        written_to(pcks.drop_last(), s)
    }
}

/// How the last packet written to stream `s` ends, if one was written to it.
pub open spec fn last_end(pcks: Seq<(u32, Seq<u8>, PacketWriteEndInfo, u64)>, s: u32) -> Option<
    PacketWriteEndInfo,
>
    decreases pcks.len(),
{
    if pcks.len() == 0 {
        None
    } else if pcks.last().0 == s {
        Some(pcks.last().2)
    } else {
        last_end(pcks.drop_last(), s)
    }
}

/// Whether a packet written to stream `s` ended it.
pub open spec fn stream_ended(pcks: Seq<(u32, Seq<u8>, PacketWriteEndInfo, u64)>, s: u32) -> bool
    decreases pcks.len(),
{
    if pcks.len() == 0 {
        false
    } else {
        stream_ended(pcks.drop_last(), s) || (pcks.last().0 == s && pcks.last().2
            == PacketWriteEndInfo::EndStream)
    }
}

/// No packet is written to a stream after a packet that ended it.
pub open spec fn nothing_after_end(pcks: Seq<(u32, Seq<u8>, PacketWriteEndInfo, u64)>) -> bool {
    forall|i: int, j: int|
        0 <= i < j < pcks.len() && #[trigger] pcks[i].2 == PacketWriteEndInfo::EndStream
            ==> #[trigger] pcks[j].0 != pcks[i].0
}

/// The packets of stream `s` among the packets `ps`, in order.
pub open spec fn packets_of(ps: Seq<PacketView>, s: u32) -> Seq<PacketView>
    decreases ps.len(),
{
    if ps.len() == 0 {
        Seq::empty()
    } else if ps.last().stream_serial == s {
        packets_of(ps.drop_last(), s).push(ps.last())
    } else {
        packets_of(ps.drop_last(), s)
    }
}

/// The data of the packets of stream `s` among the packets `ps`, in order.
pub open spec fn read_of(ps: Seq<PacketView>, s: u32) -> Seq<Seq<u8>> {
    datas(packets_of(ps, s))
}

/// The state of a writer that has written nothing: that of `BasePacketWriter::new`.
pub open spec fn fresh_writer() -> WriterView {
    WriterView { page_vals: Map::empty() }
}

/// The state of a reader that has read nothing: that of `BasePacketReader::new`.
pub open spec fn fresh_reader() -> ReaderView {
    ReaderView { page_infos: Map::empty(), stream_with_stuff: None, has_seeked: false }
}

/// The packets of a stream among packets given back one after the other.
proof fn lemma_packets_of_concat(a: Seq<PacketView>, b: Seq<PacketView>, s: u32)
    ensures
        packets_of(a + b, s) == packets_of(a, s) + packets_of(b, s),
    decreases b.len(),
{
    if b.len() == 0 {
        assert(a + b =~= a);
        assert(packets_of(a, s) + packets_of(b, s) =~= packets_of(a, s));
    } else {
        lemma_packets_of_concat(a, b.drop_last(), s);
        assert((a + b).drop_last() =~= a + b.drop_last());
        assert((a + b).last() == b.last());
        if b.last().stream_serial == s {
            assert(packets_of(a, s) + packets_of(b.drop_last(), s).push(b.last()) =~= (
            packets_of(a, s) + packets_of(b.drop_last(), s)).push(b.last()));
        }
    }
}

/// Packets that all belong to one stream are packets of that stream only.
proof fn lemma_packets_of_all(x: Seq<PacketView>, serial: u32, s: u32)
    requires
        all_of(x, serial),
    ensures
        packets_of(x, s) == if s == serial {
            x
        } else {
            Seq::<PacketView>::empty()
        },
    decreases x.len(),
{
    if x.len() > 0 {
        assert(all_of(x.drop_last(), serial)) by {
            assert forall|i: int| 0 <= i < x.drop_last().len() implies #[trigger] x.drop_last()[
                i
            ].stream_serial == serial by {
                assert(x.drop_last()[i] == x[i]);
            }
        }
        lemma_packets_of_all(x.drop_last(), serial, s);
        assert(x.last().stream_serial == serial);
        assert(x.drop_last().push(x.last()) =~= x);
    }
}

/// A writer whose streams are all well formed stays so when one stream gets a
/// well-formed page in assembly, or is dropped.
proof fn lemma_writer_wf_update(w: WriterView, serial: u32, pg: PageValuesView)
    requires
        writer_wf(w),
        values_wf(pg),
    ensures
        writer_wf(WriterView { page_vals: w.page_vals.insert(serial, pg) }),
        writer_wf(WriterView { page_vals: w.page_vals.remove(serial) }),
{
    let w2 = WriterView { page_vals: w.page_vals.insert(serial, pg) };
    assert forall|k: u32| #[trigger] w2.page_vals.contains_key(k) implies values_wf(
        w2.page_vals[k],
    ) by {
        if k != serial {
            assert(w.page_vals.contains_key(k));
        }
    }
    let w3 = WriterView { page_vals: w.page_vals.remove(serial) };
    assert forall|k: u32| #[trigger] w3.page_vals.contains_key(k) implies values_wf(
        w3.page_vals[k],
    ) by {
        assert(w.page_vals.contains_key(k));
    }
}

/// What holds between a new writer that wrote the packets `pcks` and a new reader
/// that read the pages emitted, giving back the packets `x`: the reader is in
/// step with every stream that was not ended; of every stream it has given back
/// the packets written to it, but for those still pending in the writer; and
/// it flagged them first and last of their stream as they are.
pub open spec fn run_in_step(
    pcks: Seq<(u32, Seq<u8>, PacketWriteEndInfo, u64)>,
    w: WriterView,
    v: ReaderView,
    x: Seq<PacketView>,
) -> bool {
    &&& writer_wf(w)
    &&& v.stream_with_stuff is None
    &&& !v.has_seeked
    &&& forall|s: u32|
        !stream_ended(pcks, s) ==> #[trigger] in_step(
            stream_page(w, s),
            v,
            s,
            packets_of(x, s).len(),
        )
    &&& forall|s: u32|
        !stream_ended(pcks, s) ==> #[trigger] read_of(x, s) + pending(stream_page(w, s))
            == written_to(pcks, s)
    &&& forall|s: u32| stream_ended(pcks, s) ==> #[trigger] read_of(x, s) == written_to(pcks, s)
    &&& forall|s: u32| #[trigger] stream_flags(packets_of(x, s), 0, stream_ended(pcks, s))
}

/// A new writer writes the packets `pcks`, and a new reader reads the pages
/// emitted: they stay in step.
#[verifier::spinoff_prover]
#[verifier::rlimit(60)]
proof fn lemma_run_read(pcks: Seq<(u32, Seq<u8>, PacketWriteEndInfo, u64)>, rest: Seq<u8>) -> (r: (
    ReaderView,
    Seq<PacketView>,
))
    requires
        nothing_after_end(pcks),
    ensures
        ({
            let (w, out) = packets_written(fresh_writer(), pcks);
            &&& run_in_step(pcks, w, r.0, r.1)
            &&& packets_read(fresh_reader(), out + rest) == prepend(r.1, packets_read(r.0, rest))
        }),
    decreases pcks.len(),
{
    let v0 = fresh_reader();
    if pcks.len() == 0 {
        assert(Seq::<u8>::empty() + rest =~= rest);
        lemma_prepend_empty(packets_read(v0, rest));
        let x = Seq::<PacketView>::empty();
        assert forall|s: u32| !stream_ended(pcks, s) implies #[trigger] read_of(x, s) + pending(
            stream_page(fresh_writer(), s),
        ) == written_to(pcks, s) by {
            assert(pending(stream_page(fresh_writer(), s)) =~= Seq::<Seq<u8>>::empty());
            assert(read_of(x, s) + pending(stream_page(fresh_writer(), s)) =~= Seq::<
                Seq<u8>,
            >::empty());
        }
        assert forall|s: u32| #[trigger] stream_flags(packets_of(x, s), 0, stream_ended(pcks, s)) by {}
        (v0, x)
    } else {
        let front = pcks.drop_last();
        let (t, pck, inf, absgp) = pcks.last();
        let (w1, out1) = packets_written(fresh_writer(), front);
        let (w2, out2) = write_outcome(w1, pck, t, inf, absgp);
        assert(nothing_after_end(front)) by {
            assert forall|i: int, j: int|
                0 <= i < j < front.len() && #[trigger] front[i].2 == PacketWriteEndInfo::EndStream
                    implies #[trigger] front[j].0 != front[i].0 by {
                assert(front[i] == pcks[i] && front[j] == pcks[j]);
            }
        }
        let r1 = lemma_run_read(front, out2 + rest);
        let v1 = r1.0;
        let x1 = r1.1;
        // The stream written to was not ended before.
        assert(!stream_ended(front, t)) by {
            if stream_ended(front, t) {
                lemma_ended_witness(front, t);
                let i = choose|i: int|
                    0 <= i < front.len() && front[i].0 == t && front[i].2
                        == PacketWriteEndInfo::EndStream;
                assert(pcks[i] == front[i]);
                assert(pcks[pcks.len() - 1].0 == t);
                assert(pcks[i].2 == PacketWriteEndInfo::EndStream);
            }
        }
        let d = packets_of(x1, t).len();
        assert(in_step(stream_page(w1, t), v1, t, d));
        let r2 = lemma_write_read(w1, t, pck, inf, absgp, v1, d, rest);
        let v2 = r2.0;
        let pg3 = r2.1;
        let x2 = r2.2;
        assert((out1 + out2) + rest =~= out1 + (out2 + rest));
        lemma_prepend_twice(x1, x2, packets_read(v2, rest));
        lemma_writer_wf_update(w1, t, pg3);
        let x = x1 + x2;
        assert forall|s: u32| true implies #[trigger] packets_of(x, s) == packets_of(x1, s) + (if s
            == t {
            x2
        } else {
            Seq::<PacketView>::empty()
        }) by {
            lemma_packets_of_concat(x1, x2, s);
            lemma_packets_of_all(x2, t, s);
        }
        assert forall|s: u32| true implies #[trigger] read_of(x, s) == read_of(x1, s) + (if s
            == t {
            datas(x2)
        } else {
            Seq::<Seq<u8>>::empty()
        }) by {
            if s == t {
                lemma_packets_concat(packets_of(x1, s), x2, t);
            } else {
                assert(packets_of(x, s) =~= packets_of(x1, s));
                assert(read_of(x1, s) + Seq::<Seq<u8>>::empty() =~= read_of(x1, s));
            }
        }
        assert forall|s: u32| s != t implies #[trigger] stream_page(w2, s) == stream_page(w1, s)
            && v2.page_infos.contains_key(s) == v1.page_infos.contains_key(s) && (
        v1.page_infos.contains_key(s) ==> v2.page_infos[s] == v1.page_infos[s]) by {
            assert(v2.page_infos.remove(t).contains_key(s) == v2.page_infos.contains_key(s));
            assert(v1.page_infos.remove(t).contains_key(s) == v1.page_infos.contains_key(s));
            if v1.page_infos.contains_key(s) {
                assert(v2.page_infos.remove(t)[s] == v2.page_infos[s]);
                assert(v1.page_infos.remove(t)[s] == v1.page_infos[s]);
            }
        }
        assert forall|s: u32| !stream_ended(pcks, s) implies #[trigger] in_step(
            stream_page(w2, s),
            v2,
            s,
            packets_of(x, s).len(),
        ) by {
            if s != t {
                assert(!stream_ended(front, s));
                assert(in_step(stream_page(w1, s), v1, s, packets_of(x1, s).len()));
                assert(packets_of(x, s) =~= packets_of(x1, s));
            }
        }
        assert forall|s: u32| #[trigger] stream_flags(packets_of(x, s), 0, stream_ended(pcks, s)) by {
            assert(stream_flags(packets_of(x1, s), 0, stream_ended(front, s)));
            if s == t {
                if inf == PacketWriteEndInfo::EndStream {
                    assert(x2.len() >= 1) by {
                        assert(datas(x2) + pending(pg3) == pending(stream_page(w1, t)).push(pck));
                        assert(pending(pg3) =~= Seq::<Seq<u8>>::empty());
                        assert(datas(x2).len() == x2.len());
                    }
                }
                lemma_flags_concat(
                    packets_of(x1, s),
                    x2,
                    0,
                    inf == PacketWriteEndInfo::EndStream,
                );
            } else {
                assert(packets_of(x, s) =~= packets_of(x1, s));
            }
        }
        assert forall|s: u32| !stream_ended(pcks, s) implies #[trigger] read_of(x, s) + pending(
            stream_page(w2, s),
        ) == written_to(pcks, s) by {
            assert(!stream_ended(front, s));
            assert(read_of(x1, s) + pending(stream_page(w1, s)) == written_to(front, s));
            if s == t {
                assert(stream_page(w2, s) == pg3);
                assert(read_of(x, s) + pending(pg3) =~= read_of(x1, s) + (datas(x2) + pending(
                    pg3,
                )));
                assert(read_of(x1, s) + pending(stream_page(w1, s)).push(pck) =~= (read_of(x1, s)
                    + pending(stream_page(w1, s))).push(pck));
            } else {
                assert(read_of(x, s) =~= read_of(x1, s));
            }
        }
        assert forall|s: u32| stream_ended(pcks, s) implies #[trigger] read_of(x, s)
            == written_to(pcks, s) by {
            if s == t && inf == PacketWriteEndInfo::EndStream {
                assert(!stream_ended(front, s));
                assert(read_of(x1, s) + pending(stream_page(w1, s)) == written_to(front, s));
                assert(datas(x2) =~= datas(x2) + pending(pg3));
                assert(read_of(x1, s) + pending(stream_page(w1, s)).push(pck) =~= (read_of(x1, s)
                    + pending(stream_page(w1, s))).push(pck));
            } else {
                assert(stream_ended(front, s));
                if s == t {
                    assert(false);
                }
                assert(read_of(x, s) =~= read_of(x1, s));
            }
        }
        (v2, x)
    }
}

/// A stream that was ended was ended by one of the packets.
proof fn lemma_ended_witness(pcks: Seq<(u32, Seq<u8>, PacketWriteEndInfo, u64)>, s: u32)
    requires
        stream_ended(pcks, s),
    ensures
        exists|i: int|
            0 <= i < pcks.len() && pcks[i].0 == s && pcks[i].2 == PacketWriteEndInfo::EndStream,
    decreases pcks.len(),
{
    if stream_ended(pcks.drop_last(), s) {
        lemma_ended_witness(pcks.drop_last(), s);
        let i = choose|i: int|
            0 <= i < pcks.drop_last().len() && pcks.drop_last()[i].0 == s && pcks.drop_last()[i].2
                == PacketWriteEndInfo::EndStream;
        assert(pcks[i] == pcks.drop_last()[i]);
    } else {
        assert(pcks[pcks.len() - 1] == pcks.last());
    }
}

/// A new writer has emitted every packet written to a stream whose last packet
/// ended a page or the stream, and every stream it holds is well formed.
pub proof fn lemma_all_emitted_when_pages_end(pcks: Seq<(u32, Seq<u8>, PacketWriteEndInfo, u64)>)
    ensures
        writer_wf(packets_written(fresh_writer(), pcks).0),
        forall|s: u32|
            #[trigger] last_end(pcks, s) != Some(PacketWriteEndInfo::NormalPacket) ==> stream_page(
                packets_written(fresh_writer(), pcks).0,
                s,
            ).data.len() == 0,
    decreases pcks.len(),
{
    if pcks.len() > 0 {
        let front = pcks.drop_last();
        let (t, pck, inf, absgp) = pcks.last();
        let w1 = packets_written(fresh_writer(), front).0;
        lemma_all_emitted_when_pages_end(front);
        lemma_write_keeps_wf(w1, pck, t, inf, absgp);
        if inf != PacketWriteEndInfo::NormalPacket {
            lemma_page_end_flushes(w1, pck, t, inf, absgp);
        }
        let w2 = packets_written(fresh_writer(), pcks).0;
        assert forall|s: u32|
            #[trigger] last_end(pcks, s) != Some(PacketWriteEndInfo::NormalPacket) implies stream_page(
            w2,
            s,
        ).data.len() == 0 by {
            if s != t {
                assert(last_end(pcks, s) == last_end(front, s));
                assert(stream_page(w2, s) == stream_page(w1, s));
            }
        }
    }
}

/// Packets written by a new writer, to any number of logical bitstreams, are given
/// back whole and in order, stream by stream, by a new reader that reads the pages
/// that the writer emitted; provided that the writer emitted them all (it has, for
/// instance, when the last packet written to each stream ended a page or the
/// stream), and that nothing is written to a stream after the packet that ended it.
/// Of the packets of a stream, the first one is flagged first of the stream, and
/// the last one is flagged last of the stream if the stream was ended; no other is.
#[verifier::spinoff_prover]
#[verifier::rlimit(40)]
pub proof fn lemma_written_packets_read_back(pcks: Seq<(u32, Seq<u8>, PacketWriteEndInfo, u64)>)
    requires
        nothing_after_end(pcks),
        forall|s: u32|
            #[trigger] stream_page(packets_written(fresh_writer(), pcks).0, s).data.len() == 0,
    ensures
        packets_read(fresh_reader(), packets_written(fresh_writer(), pcks).1) matches Some(ps)
            && forall|s: u32|
            #![trigger read_of(ps, s)]
            #![trigger packets_of(ps, s)]
            read_of(ps, s) == written_to(pcks, s) && stream_flags(
                packets_of(ps, s),
                0,
                stream_ended(pcks, s),
            ),
{
    let (w, out) = packets_written(fresh_writer(), pcks);
    let r = lemma_run_read(pcks, Seq::empty());
    assert(out + Seq::<u8>::empty() =~= out);
    assert(packets_read(r.0, Seq::empty()) == Some(Seq::<PacketView>::empty()));
    let ps = r.1 + Seq::<PacketView>::empty();
    assert(ps =~= r.1);
    assert forall|s: u32| #[trigger] read_of(ps, s) == written_to(pcks, s) && stream_flags(
        packets_of(ps, s),
        0,
        stream_ended(pcks, s),
    ) by {
        assert(stream_flags(packets_of(r.1, s), 0, stream_ended(pcks, s)));
        if !stream_ended(pcks, s) {
            assert(stream_page(w, s).data.len() == 0);
            assert(pending(stream_page(w, s)) =~= Seq::<Seq<u8>>::empty());
            assert(read_of(r.1, s) + pending(stream_page(w, s)) == written_to(pcks, s));
            assert(read_of(r.1, s) + Seq::<Seq<u8>>::empty() =~= read_of(r.1, s));
        }
    }
}

// ---------------------------------------------------------------------------
// The sequence numbers of the pages that the writer emits.

/// The `c` sequence numbers that follow one another from `a` on.
pub open spec fn numbered_from(a: u32, c: int) -> Seq<u32> {
    Seq::new(c as nat, |i: int| (a + i) as u32)
}

/// `c` pages of which only the last is flagged the last of its stream, if `last`.
pub open spec fn ended_at_last(c: int, last: bool) -> Seq<bool> {
    Seq::new(c as nat, |i: int| last && i == c - 1)
}

/// An emitted page, followed by anything, begins the page numbers with its own,
/// and the last-page flags with its own.
proof fn lemma_numbers_emitted(serial: u32, pg: PageValuesView, last_page: bool, rest: Seq<u8>)
    requires
        page_ready(pg),
    ensures
        page_numbers(page_bytes(serial, pg, last_page) + rest) == seq![pg.sequence_num]
            + page_numbers(rest),
        page_last_flags(page_bytes(serial, pg, last_page) + rest) == seq![last_page]
            + page_last_flags(rest),
{
    lemma_parse_emitted_page(serial, pg, last_page, rest);
}

/// One more lacing value: a page is emitted when it fills the lacing.
proof fn lemma_count_step(x: int)
    requires
        x >= 0,
    ensures
        x % 255 == 254 ==> (x + 1) / 255 == x / 255 + 1 && (x + 1) % 255 == 0,
        x % 255 != 254 ==> (x + 1) / 255 == x / 255 && (x + 1) % 255 == x % 255 + 1,
{
}

/// Lacing `k` segments of a packet onto a page that holds `cnt` lacing values
/// emits one page for every 255 lacing values, numbered from the page's own
/// sequence number on.
#[verifier::spinoff_prover]
#[verifier::rlimit(40)]
proof fn lemma_lace_numbers(
    serial: u32,
    pg1: PageValuesView,
    len: nat,
    k: nat,
    end_stream: bool,
    rest: Seq<u8>,
)
    requires
        k <= len / 255 + 1,
        lace_inv(pg1, len, 0),
        pg1.sequence_num + (pg1.lacing.len() + k) / 255 <= u32::MAX,
    ensures
        ({
            let (p, out) = lace_segments(serial, pg1, len, k, end_stream);
            let c = ((pg1.lacing.len() + k) / 255) as int;
            &&& p.lacing.len() == (pg1.lacing.len() + k) % 255
            &&& p.sequence_num == pg1.sequence_num + c
            &&& page_numbers(out + rest) == numbered_from(pg1.sequence_num, c) + page_numbers(
                rest,
            )
            &&& page_last_flags(out + rest) == ended_at_last(
                c,
                end_stream && k == len / 255 + 1 && p.lacing.len() == 0,
            ) + page_last_flags(rest)
        }),
    decreases k,
{
    let c0 = pg1.lacing.len() as int;
    if k == 0 {
        assert(lace_inv(pg1, len, 0));
        assert(Seq::<u8>::empty() + rest =~= rest);
        assert(numbered_from(pg1.sequence_num, c0 / 255) =~= Seq::<u32>::empty());
        assert(numbered_from(pg1.sequence_num, 0) + page_numbers(rest) =~= page_numbers(rest));
        assert(ended_at_last(c0 / 255, false) + page_last_flags(rest) =~= page_last_flags(rest));
    } else {
        let (p, out) = lace_segments(serial, pg1, len, (k - 1) as nat, end_stream);
        let (p2, out2) = lace_segment(serial, p, len, k - 1, end_stream);
        lemma_lace_segments(serial, pg1, len, (k - 1) as nat, end_stream);
        lemma_lace_step(serial, p, len, k - 1, end_stream);
        lemma_count_step(c0 + k - 1);
        assert(pg1.sequence_num + (c0 + k - 1) / 255 <= u32::MAX);
        lemma_lace_numbers(serial, pg1, len, (k - 1) as nat, end_stream, out2 + rest);
        assert((out + out2) + rest =~= out + (out2 + rest));
        let before = numbered_from(pg1.sequence_num, (c0 + k - 1) / 255);
        if p.lacing.len() + 1 == 255 {
            let f = full_page(p, len, k - 1);
            let last = !(k < len / 255 + 1) && end_stream;
            lemma_numbers_emitted(serial, f, last, rest);
            assert(before + (seq![p.sequence_num] + page_numbers(rest)) =~= numbered_from(
                pg1.sequence_num,
                (c0 + k) / 255,
            ) + page_numbers(rest));
            assert(ended_at_last((c0 + k - 1) / 255, false) + (seq![last] + page_last_flags(rest))
                =~= ended_at_last((c0 + k) / 255, last) + page_last_flags(rest));
        } else {
            assert(out2 + rest =~= rest);
        }
    }
}

/// The pages that a write emits are as many as `pages_emitted` says, at least one
/// when the write ends a page or the stream, numbered one after the other from
/// the sequence number of the stream's page in assembly; the stream's next page
/// carries the number after them. A write that ends the stream flags its last
/// page, and no other, the last page of the stream.
#[verifier::spinoff_prover]
#[verifier::rlimit(40)]
pub proof fn lemma_write_numbers_pages(
    w: WriterView,
    pck: Seq<u8>,
    serial: u32,
    inf: PacketWriteEndInfo,
    absgp: u64,
)
    requires
        writer_wf(w),
        stream_page(w, serial).sequence_num + pages_emitted(
            stream_page(w, serial).lacing.len() as int,
            pck.len(),
            inf,
        ) <= u32::MAX,
    ensures
        ({
            let (w2, out) = write_outcome(w, pck, serial, inf, absgp);
            let pg = stream_page(w, serial);
            let c = pages_emitted(pg.lacing.len() as int, pck.len(), inf);
            &&& page_numbers(out) == numbered_from(pg.sequence_num, c)
            &&& page_last_flags(out) == ended_at_last(c, inf == PacketWriteEndInfo::EndStream)
            &&& inf != PacketWriteEndInfo::NormalPacket ==> c >= 1
            &&& inf != PacketWriteEndInfo::EndStream ==> stream_page(w2, serial).sequence_num
                == pg.sequence_num + c
        }),
{
    let end_stream = inf == PacketWriteEndInfo::EndStream;
    let pg0 = stream_page(w, serial);
    assert(values_wf(pg0)) by {
        if !w.page_vals.contains_key(serial) {
            assert(pg0.lacing =~= lacings_upto(pg0, 0));
        }
    }
    let pg1 = PageValuesView { data: pg0.data.push((pck, absgp)), ..pg0 };
    let n = pck.len() / 255 + 1;
    let c0 = pg0.lacing.len() as int;
    lemma_lace_start(pg0, pck, absgp);
    let (p2, out) = lace_segments(serial, pg1, pck.len(), n, end_stream);
    lemma_lace_segments(serial, pg1, pck.len(), n, end_stream);
    let c = (c0 + n) / 255;
    if inf != PacketWriteEndInfo::NormalPacket && p2.lacing.len() != 0 {
        let out2 = page_bytes(serial, p2, end_stream);
        lemma_lace_numbers(serial, pg1, pck.len(), n, end_stream, out2);
        lemma_numbers_emitted(serial, p2, end_stream, Seq::empty());
        assert(out2 + Seq::<u8>::empty() =~= out2);
        assert(page_numbers(Seq::<u8>::empty()) == Seq::<u32>::empty());
        assert(numbered_from(pg0.sequence_num, c) + (seq![p2.sequence_num] + Seq::<u32>::empty())
            =~= numbered_from(pg0.sequence_num, c + 1));
        assert(page_last_flags(Seq::<u8>::empty()) == Seq::<bool>::empty());
        assert(ended_at_last(c, false) + (seq![end_stream] + Seq::<bool>::empty())
            =~= ended_at_last(c + 1, end_stream));
    } else {
        lemma_lace_numbers(serial, pg1, pck.len(), n, end_stream, Seq::empty());
        assert(out + Seq::<u8>::empty() =~= out);
        assert(page_numbers(Seq::<u8>::empty()) == Seq::<u32>::empty());
        assert(numbered_from(pg0.sequence_num, c) + Seq::<u32>::empty() =~= numbered_from(
            pg0.sequence_num,
            c,
        ));
        assert(page_last_flags(Seq::<u8>::empty()) == Seq::<bool>::empty());
        let fl = end_stream && n == pck.len() / 255 + 1 && p2.lacing.len() == 0;
        assert(ended_at_last(c, fl) + Seq::<bool>::empty() =~= ended_at_last(c, fl));
    }
}

} // verus!
