// Tests of the smaller pieces of the library: the page parser on its own, the
// header search, the page decoder, the buffering layer and the helpers.

use bytes::BytesMut;
use ogg::backports::{Option_v1_35, u32_v1_32};
use ogg::buf_reader::{AdvanceAndSeekBack, BufReader};
use ogg::reading::{
	AbsgpSeek, BasePacketReader, PageDecoder, PageParser, SeekAction, SeekTo,
	UntilPageHeaderReader, UntilPageHeaderResult,
};
use ogg::writing::{BasePacketWriter, PacketWriteEndInfo, PageSink};
use ogg::OggReadError;

// A page taken from a real Ogg file: the identification header of a Vorbis stream.
const PAGE: [u8; 58] = [
	0x4f, 0x67, 0x67, 0x53, 0x00, 0x02, 0x00, 0x00,
	0x00, 0x00, 0x00, 0x00, 0x00, 0x00, 0x74, 0xa3,
	0x90, 0x5b, 0x00, 0x00, 0x00, 0x00, 0x6d, 0x94,
	0x4e, 0x3d, 0x01, 0x1e, 0x01, 0x76, 0x6f, 0x72,
	0x62, 0x69, 0x73, 0x00, 0x00, 0x00, 0x00, 0x02,
	0x44, 0xac, 0x00, 0x00, 0x00, 0x00, 0x00, 0x00,
	0x80, 0xb5, 0x01, 0x00, 0x00, 0x00, 0x00, 0x00,
	0xb8, 0x01];

fn header() -> [u8; 27] {
	let mut h = [0u8; 27];
	h.copy_from_slice(&PAGE[0..27]);
	h
}

#[test]
fn parser_reads_the_header_fields() {
	let (mut p, nseg) = PageParser::new(header()).unwrap();
	assert_eq!(nseg, 1);
	let siz = p.parse_segments(vec![0x1e]);
	assert_eq!(siz, 30);
	let page = p.parse_packet_data(PAGE[28..].to_vec()).unwrap();
	let mut r = BasePacketReader::new();
	r.push_page(page).unwrap();
	let pck = r.read_packet().unwrap();
	assert_eq!(pck.data, PAGE[28..].to_vec());
	assert_eq!(pck.stream_serial(), 0x5b90a374);
	assert_eq!(pck.absgp_page(), 0);
	assert_eq!(pck.checksum_page(), 0x3d4e946d);
	assert!(pck.first_in_stream());
	assert!(pck.last_in_page());
	assert!(!pck.last_in_stream());
	assert!(r.read_packet().is_none());
}

#[test]
fn parser_refuses_other_structure_versions() {
	let mut h = header();
	h[4] = 1;
	match PageParser::new(h) {
		Err(OggReadError::InvalidStreamStructVer(1)) => (),
		_ => panic!("expected a version error"),
	}
}

#[test]
fn parser_detects_a_wrong_checksum() {
	let (mut p, _) = PageParser::new(header()).unwrap();
	p.parse_segments(vec![0x1e]);
	let mut body = PAGE[28..].to_vec();
	body[0] ^= 1;
	match p.parse_packet_data(body) {
		Err(OggReadError::HashMismatch(expected, calculated)) => {
			assert_eq!(expected, 0x3d4e946d);
			assert_ne!(calculated, expected);
		},
		_ => panic!("expected a hash mismatch"),
	}
}

#[test]
fn lacing_with_continued_packet() {
	// A page whose lacing is 255, 10, 255: one packet of 265 bytes, then one
	// that continues on the next page.
	let (mut p, _) = PageParser::new(header()).unwrap();
	assert_eq!(p.parse_segments(vec![255, 10, 255]), 520);
}

#[test]
fn duplicate_first_page_is_refused() {
	let mut r = BasePacketReader::new();
	for k in 0..2 {
		let (mut p, _) = PageParser::new(header()).unwrap();
		p.parse_segments(vec![0x1e]);
		let page = p.parse_packet_data(PAGE[28..].to_vec()).unwrap();
		let res = r.push_page(page);
		if k == 0 {
			assert!(res.is_ok());
			assert!(r.read_packet().is_some());
		} else {
			match res {
				Err(OggReadError::InvalidData) => (),
				_ => panic!("expected invalid data"),
			}
		}
	}
}

#[test]
fn after_a_seek_a_new_stream_may_start_anywhere() {
	let mut r = BasePacketReader::new();
	r.update_after_seek();
	let mut h = header();
	h[5] = 0; // not the first page of its stream
	// fix the checksum for the changed flags
	let mut w = h;
	w[22] = 0; w[23] = 0; w[24] = 0; w[25] = 0;
	let mut all = w.to_vec();
	all.push(0x1e);
	all.extend_from_slice(&PAGE[28..]);
	let crc = ogg::crc::vorbis_crc32(&all);
	h[22..26].copy_from_slice(&crc.to_le_bytes());
	let (mut p, _) = PageParser::new(h).unwrap();
	p.parse_segments(vec![0x1e]);
	let page = p.parse_packet_data(PAGE[28..].to_vec()).unwrap();
	assert!(r.push_page(page).is_ok());
	let pck = r.read_packet().unwrap();
	assert!(!pck.first_in_stream());
}

#[test]
fn header_search_skips_garbage() {
	let mut stream = vec![1u8, 2, 0x4f, 0x67, 9];
	stream.extend_from_slice(&PAGE);
	let mut r = UntilPageHeaderReader::new();
	let mut pos = 0;
	loop {
		let res = match r.read_len() {
			Ok(n) => {
				let end = std::cmp::min(pos + n, stream.len());
				let res = r.do_read(&stream[pos..end]).unwrap();
				pos = end;
				res
			},
			Err(res) => res,
		};
		match res {
			UntilPageHeaderResult::Found => break,
			UntilPageHeaderResult::ReadNeeded => (),
			UntilPageHeaderResult::SeekNeeded => {
				let off = r.seek_offset().unwrap();
				pos = (pos as i64 + off as i64) as usize;
				r.do_seek();
			},
			UntilPageHeaderResult::Eof => panic!("unexpected end"),
		}
	}
	// The reader stands right after the header.
	assert_eq!(pos, 5 + 27);
	assert_eq!(r.into_header(), header());
}

#[test]
fn header_search_at_the_end_of_the_stream() {
	let mut r = UntilPageHeaderReader::new();
	assert_eq!(r.read_len().unwrap(), 27);
	match r.do_read(&[]) {
		Ok(UntilPageHeaderResult::Eof) => (),
		_ => panic!("expected the end of the stream"),
	}
	let mut r = UntilPageHeaderReader::new();
	r.do_read(&[1, 2, 3]).unwrap();
	match r.do_read(&[]) {
		Err(OggReadError::NoCapturePatternFound) => (),
		_ => panic!("expected no capture pattern"),
	}
}

#[test]
fn header_search_gives_up_after_150_kib() {
	let mut r = UntilPageHeaderReader::new();
	let junk = vec![0u8; 1024];
	let mut reads = 0;
	loop {
		let n = r.read_len().unwrap();
		match r.do_read(&junk[0..n]) {
			Ok(UntilPageHeaderResult::ReadNeeded) => reads += 1,
			Err(OggReadError::NoCapturePatternFound) => break,
			_ => panic!("unexpected result"),
		}
	}
	assert_eq!(reads, 150);
}

#[test]
fn decoder_cuts_pages_out_of_a_growing_buffer() {
	let mut w = BasePacketWriter::new();
	let mut stream = Vec::new();
	w.write_packet(vec![5; 300], 4, PacketWriteEndInfo::EndPage, 1, &mut stream);
	w.write_packet(vec![6; 3], 4, PacketWriteEndInfo::EndStream, 2, &mut stream);
	let mut dec = PageDecoder::new();
	let mut buf = BytesMut::new();
	let mut rdr = BasePacketReader::new();
	let mut got = Vec::new();
	for chunk in stream.chunks(7) {
		buf.extend_from_slice(chunk);
		while let Some(page) = dec.decode(&mut buf).unwrap() {
			rdr.push_page(page).unwrap();
			while let Some(p) = rdr.read_packet() {
				got.push(p.data);
			}
		}
	}
	assert!(dec.can_decode());
	assert!(buf.is_empty());
	assert_eq!(got, vec![vec![5; 300], vec![6; 3]]);
	// Nothing is taken from an incomplete page.
	let mut buf = BytesMut::from(&PAGE[0..30]);
	assert!(dec.decode_eof(&mut buf).unwrap().is_none());
	assert_eq!(buf.len(), 30 - 27 - 1);
}

#[test]
fn decoder_stops_after_an_error() {
	let mut dec = PageDecoder::new();
	let mut bad = PAGE.to_vec();
	bad[4] = 3;
	let mut buf = BytesMut::from(&bad[..]);
	match dec.decode(&mut buf) {
		Err(OggReadError::InvalidStreamStructVer(3)) => (),
		_ => panic!("expected a version error"),
	}
	assert!(!dec.can_decode());
}

#[test]
fn seek_search_starts_at_the_beginning() {
	let (mut s, a) = AbsgpSeek::new(None, 0);
	assert_eq!(a, SeekAction::Seek(SeekTo::Start(0)));
	assert_eq!(s.step(ogg::reading::SeekEvent::Position(0)), SeekAction::Seek(SeekTo::Current(0)));
	assert_eq!(s.step(ogg::reading::SeekEvent::Position(0)), SeekAction::ReadPage);
	// The stream is empty: the search fails.
	assert_eq!(s.step(ogg::reading::SeekEvent::Page(None)), SeekAction::Done(false));
}

#[test]
fn writer_stream_checks() {
	let w = BasePacketWriter::new();
	assert!(w.has_room(1, 1000, PacketWriteEndInfo::EndStream));
}

#[test]
fn buf_reader_rolls_back() {
	let mut b = BufReader::new(());
	assert!(b.is_clean());
	b.record_read(&[1, 2, 3, 4, 5]);
	assert_eq!(b.buffered(), 0);
	assert_eq!(b.read_offset(), 5);
	b.seek_back(3);
	assert_eq!(b.buffered(), 3);
	assert_eq!(b.take_buffered(2), vec![3, 4]);
	assert_eq!(b.take_buffered(10), vec![5]);
	b.record_read_error();
	assert_eq!(b.read_offset(), 0);
	assert_eq!(b.take_buffered(10), vec![1, 2, 3, 4, 5]);
	b.advance();
	assert!(b.is_clean());
	b.into_inner();
}

#[test]
fn backports() {
	let x = 7u8;
	assert_eq!(Option_v1_35::copied(Some(&x)), Some(7));
	assert_eq!(Option_v1_35::copied(None::<&u8>), None);
	assert_eq!(u32_v1_32::to_le_bytes(0x1234_5678u32), [0x78, 0x56, 0x34, 0x12]);
}

#[test]
fn error_descriptions() {
	assert_eq!(OggReadError::NoCapturePatternFound.description_str(), "No Ogg capture pattern found");
	assert_eq!(OggReadError::InvalidStreamStructVer(1).description_str(),
		"A non zero stream structure version was passed");
	assert_eq!(OggReadError::HashMismatch(1, 2).description_str(), "CRC32 hash mismatch");
	assert_eq!(OggReadError::InvalidData.description_str(), "Constraint violated");
	let e: OggReadError = std::io::Error::new(std::io::ErrorKind::Other, "x").into();
	assert_eq!(e.description_str(), "I/O error");
	assert!(e.cause().is_some());
	assert!(OggReadError::InvalidData.cause().is_none());
}

#[test]
fn le_bytes_of_u64() {
	assert_eq!(ogg::le::u64_to_le_bytes(0x0102_0304_0506_0708),
		[8, 7, 6, 5, 4, 3, 2, 1]);
}

#[test]
fn header_search_finds_a_page_at_once() {
	// A search that starts right at a page reads its 27 header bytes and is done.
	let mut r = UntilPageHeaderReader::new();
	assert_eq!(r.read_len().unwrap(), 27);
	match r.do_read(&PAGE[0..27]) {
		Ok(UntilPageHeaderResult::Found) => (),
		_ => panic!("expected the header at once"),
	}
	assert_eq!(r.into_header(), header());
}

// A sink that refuses its `fail_at`-th write (counting from 1) and takes all others.
struct FlakySink {
	out: Vec<u8>,
	calls: usize,
	fail_at: usize,
}

impl PageSink for FlakySink {
	fn write_bytes(&mut self, data: &[u8]) -> bool {
		self.calls += 1;
		if self.calls == self.fail_at {
			return false;
		}
		self.out.extend_from_slice(data);
		true
	}
}

#[test]
fn a_failed_write_stops_at_once_and_keeps_the_page() {
	let mut w = BasePacketWriter::new();
	// The header goes out, the lacing values are refused.
	let mut sink = FlakySink { out: Vec::new(), calls: 0, fail_at: 2 };
	assert!(!w.write_packet(vec![1, 2, 3], 9, PacketWriteEndInfo::EndPage, 5, &mut sink));
	assert_eq!(sink.calls, 2);
	assert!(!w.has_full_page(9));
	// The page was kept: the next packet joins it, and both go out in one page,
	// as if the first had been a normal packet.
	let mut out = Vec::new();
	assert!(w.write_packet(vec![4, 5], 9, PacketWriteEndInfo::EndPage, 6, &mut out));
	let mut expected = Vec::new();
	let mut w2 = BasePacketWriter::new();
	assert!(w2.write_packet(vec![1, 2, 3], 9, PacketWriteEndInfo::NormalPacket, 5, &mut expected));
	assert!(w2.write_packet(vec![4, 5], 9, PacketWriteEndInfo::EndPage, 6, &mut expected));
	assert_eq!(out, expected);
	assert_eq!(out.len(), 27 + 2 + 5);
}

#[test]
fn a_failed_write_of_a_full_page_blocks_the_stream() {
	let mut w = BasePacketWriter::new();
	let mut sink = FlakySink { out: Vec::new(), calls: 0, fail_at: 1 };
	// 256 lacing values: the page fills after 255 of them.
	assert!(!w.write_packet(vec![7; 255 * 255], 3, PacketWriteEndInfo::NormalPacket, 0, &mut sink));
	assert_eq!(sink.calls, 1);
	assert!(sink.out.is_empty());
	assert!(w.has_full_page(3));
	assert!(!w.has_full_page(4));
	// A write that succeeds returns true.
	let mut out = Vec::new();
	assert!(w.write_packet(vec![8; 10], 4, PacketWriteEndInfo::EndStream, 0, &mut out));
	assert_eq!(out.len(), 27 + 1 + 10);
}

#[test]
fn seek_search_succeeds_after_a_page_reaching_the_goal() {
	let (mut p, _) = PageParser::new(header()).unwrap();
	p.parse_segments(vec![0x1e]);
	let page = p.parse_packet_data(PAGE[28..].to_vec()).unwrap();
	let (mut s, a) = AbsgpSeek::new(Some(0x5b90a374), 0);
	assert_eq!(a, SeekAction::Seek(SeekTo::Start(0)));
	assert_eq!(s.step(ogg::reading::SeekEvent::Position(0)), SeekAction::Seek(SeekTo::Current(0)));
	assert_eq!(s.step(ogg::reading::SeekEvent::Position(0)), SeekAction::ReadPage);
	// The page holds a whole packet of the stream: with a goal of 0 it is the one.
	assert_eq!(s.step(ogg::reading::SeekEvent::Page(Some(page))), SeekAction::Seek(SeekTo::Start(0)));
	assert_eq!(s.step(ogg::reading::SeekEvent::Position(0)), SeekAction::Done(true));
}
