// Round trips through the page writer and the page reader of the library,
// driven over in-memory streams the way a reader over `std::io` drives them.

use std::io::{Cursor, Read, Seek, SeekFrom, Write};
use ogg::reading::{
	AbsgpSeek, BasePacketReader, OggPage, PageParser, SeekAction, SeekEvent, SeekTo,
	UntilPageHeaderReader, UntilPageHeaderResult,
};
use ogg::writing::{BasePacketWriter, PacketWriteEndInfo, PageSink};
use ogg::{OggReadError, Packet};

struct Writer<'a> {
	wtr: &'a mut Cursor<Vec<u8>>,
	base: BasePacketWriter,
}

impl<'a> Writer<'a> {
	fn new(wtr: &'a mut Cursor<Vec<u8>>) -> Self {
		Writer { wtr, base: BasePacketWriter::new() }
	}
	fn write_packet(&mut self, data: &[u8], serial: u32, inf: PacketWriteEndInfo, absgp: u64)
			-> std::io::Result<()> {
		assert!(!self.base.has_full_page(serial));
		assert!(self.base.has_room(serial, data.len(), inf));
		let mut sink = CursorSink { wtr: &mut *self.wtr, io_err: None };
		self.base.write_packet(data.to_vec(), serial, inf, absgp, &mut sink);
		sink.io_err.map_or(Ok(()), Err)
	}
}

struct CursorSink<'b> {
	wtr: &'b mut Cursor<Vec<u8>>,
	io_err: Option<std::io::Error>,
}

impl PageSink for CursorSink<'_> {
	fn write_bytes(&mut self, data: &[u8]) -> bool {
		match self.wtr.write_all(data) {
			Ok(()) => true,
			Err(err) => {
				self.io_err = Some(err);
				false
			},
		}
	}
}

struct Reader<T: Read + Seek> {
	rdr: T,
	base: BasePacketReader,
}

fn do_read<R: Read>(r: &mut UntilPageHeaderReader, rdr: &mut R)
		-> Result<UntilPageHeaderResult, OggReadError> {
	let amount = match r.read_len() {
		Ok(n) => n,
		Err(res) => return Ok(res),
	};
	let mut buf = [0u8; 1024];
	let rd_len = rdr.read(&mut buf[0..amount])?;
	r.do_read(&buf[0..rd_len])
}

impl<T: Read + Seek> Reader<T> {
	fn new(rdr: T) -> Self {
		Reader { rdr, base: BasePacketReader::new() }
	}
	fn read_ogg_page(&mut self) -> Result<Option<OggPage>, OggReadError> {
		let mut r = UntilPageHeaderReader::new();
		let mut res = do_read(&mut r, &mut self.rdr)?;
		loop {
			res = match res {
				UntilPageHeaderResult::Eof => return Ok(None),
				UntilPageHeaderResult::Found => break,
				UntilPageHeaderResult::ReadNeeded => do_read(&mut r, &mut self.rdr)?,
				UntilPageHeaderResult::SeekNeeded => {
					if let Some(offs) = r.seek_offset() {
						self.rdr.seek(SeekFrom::Current(offs as i64))?;
					}
					r.do_seek()
				},
			}
		}
		let (mut pg_prs, n) = PageParser::new(r.into_header())?;
		let mut segs = vec![0; n];
		self.rdr.read_exact(&mut segs)?;
		let siz = pg_prs.parse_segments(segs);
		let mut data = vec![0; siz];
		self.rdr.read_exact(&mut data)?;
		Ok(Some(pg_prs.parse_packet_data(data)?))
	}
	fn read_packet(&mut self) -> Result<Option<Packet>, OggReadError> {
		loop {
			if let Some(p) = self.base.read_packet() {
				return Ok(Some(p));
			}
			match self.read_ogg_page()? {
				Some(page) => self.base.push_page(page)?,
				None => return Ok(None),
			}
		}
	}
	fn seek_absgp(&mut self, serial: Option<u32>, goal: u64) -> Result<bool, OggReadError> {
		let (mut search, mut action) = AbsgpSeek::new(serial, goal);
		loop {
			action = match action {
				SeekAction::Seek(to) => {
					let from = match to {
						SeekTo::Start(p) => SeekFrom::Start(p),
						SeekTo::Current(o) => SeekFrom::Current(o),
						SeekTo::End(o) => SeekFrom::End(o),
					};
					let pos = self.rdr.seek(from)?;
					search.step(SeekEvent::Position(pos))
				},
				SeekAction::ReadPage => {
					let page = self.read_ogg_page()?;
					search.step(SeekEvent::Page(page))
				},
				SeekAction::Done(found) => {
					if found {
						self.base.update_after_seek();
					}
					return Ok(found);
				},
			};
		}
	}
}

fn test_arr_eq(a_arr: &[u8], b_arr: &[u8]) {
	for i in 0 .. b_arr.len() {
		if a_arr[i] != b_arr[i] {
			panic!("Mismatch of values at index {}: {} {}", i, a_arr[i], b_arr[i]);
		}
	}
}

#[test]
fn test_ogg_packet_rw() {
	let mut c = Cursor::new(Vec::new());
	let test_arr = [0, 1, 2, 3, 4, 5, 6, 7, 8, 9, 10];
	let test_arr_2 = [2, 4, 8, 16, 32, 64, 128, 127, 126, 125, 124];
	let test_arr_3 = [3, 5, 9, 17, 33, 65, 129, 129, 127, 126, 125];
	{
		let mut w = Writer::new(&mut c);
		let np = PacketWriteEndInfo::NormalPacket;
		w.write_packet(&test_arr, 0xdeadb33f, np, 0).unwrap();
		w.write_packet(&test_arr_2, 0xdeadb33f, np, 1).unwrap();
		w.write_packet(&test_arr_3, 0xdeadb33f,
			PacketWriteEndInfo::EndPage, 2).unwrap();
	}
	assert_eq!(c.seek(SeekFrom::Start(0)).unwrap(), 0);
	{
		let mut r = Reader::new(c);
		let p1 = r.read_packet().unwrap().unwrap();
		assert_eq!(test_arr, *p1.data);
		let p2 = r.read_packet().unwrap().unwrap();
		assert_eq!(test_arr_2, *p2.data);
		let p3 = r.read_packet().unwrap().unwrap();
		assert_eq!(test_arr_3, *p3.data);
	}

	// Now test packets spanning multiple segments
	let mut c = Cursor::new(Vec::new());
	let test_arr = [0, 1, 2, 3, 4, 5, 6, 7, 8, 9, 10];
	let mut test_arr_2 = [0; 700];
	let test_arr_3 = [3, 5, 9, 17, 33, 65, 129, 129, 127, 126, 125];
	for (idx, a) in test_arr_2.iter_mut().enumerate() {
		*a = (idx as u8) / 4;
	}
	{
		let mut w = Writer::new(&mut c);
		let np = PacketWriteEndInfo::NormalPacket;
		w.write_packet(&test_arr, 0xdeadb33f, np, 0).unwrap();
		w.write_packet(&test_arr_2, 0xdeadb33f, np, 1).unwrap();
		w.write_packet(&test_arr_3, 0xdeadb33f,
			PacketWriteEndInfo::EndPage, 2).unwrap();
	}
	assert_eq!(c.seek(SeekFrom::Start(0)).unwrap(), 0);
	{
		let mut r = Reader::new(&mut c);
		let p1 = r.read_packet().unwrap().unwrap();
		assert_eq!(test_arr, *p1.data);
		let p2 = r.read_packet().unwrap().unwrap();
		test_arr_eq(&test_arr_2, &*p2.data);
		let p3 = r.read_packet().unwrap().unwrap();
		assert_eq!(test_arr_3, *p3.data);
	}

	// Now test packets spanning multiple pages
	let mut c = Cursor::new(Vec::new());
	let mut test_arr_2 = [0; 14_000];
	let test_arr_3 = [3, 5, 9, 17, 33, 65, 129, 129, 127, 126, 125];
	for (idx, a) in test_arr_2.iter_mut().enumerate() {
		*a = (idx as u8) / 4;
	}
	{
		let mut w = Writer::new(&mut c);
		let np = PacketWriteEndInfo::NormalPacket;
		w.write_packet(&test_arr_2, 0xdeadb33f, np, 1).unwrap();
		w.write_packet(&test_arr_3, 0xdeadb33f,
			PacketWriteEndInfo::EndPage, 2).unwrap();
	}
	assert_eq!(c.seek(SeekFrom::Start(0)).unwrap(), 0);
	{
		let mut r = Reader::new(c);
		let p2 = r.read_packet().unwrap().unwrap();
		test_arr_eq(&test_arr_2, &*p2.data);
		let p3 = r.read_packet().unwrap().unwrap();
		assert_eq!(test_arr_3, *p3.data);
	}
}

#[test]
fn test_page_end_after_first_packet() {
	// Test that everything works well if we force a page end
	// after the first packet
	let mut c = Cursor::new(Vec::new());
	let test_arr = [0, 1, 2, 3, 4, 5, 6, 7, 8, 9, 10];
	let test_arr_2 = [2, 4, 8, 16, 32, 64, 128, 127, 126, 125, 124];
	let test_arr_3 = [3, 5, 9, 17, 33, 65, 129, 129, 127, 126, 125];
	{
		let mut w = Writer::new(&mut c);
		let np = PacketWriteEndInfo::NormalPacket;
		w.write_packet(&test_arr, 0xdeadb33f,
			PacketWriteEndInfo::EndPage, 0).unwrap();
		w.write_packet(&test_arr_2, 0xdeadb33f, np, 1).unwrap();
		w.write_packet(&test_arr_3, 0xdeadb33f,
			PacketWriteEndInfo::EndPage, 2).unwrap();
	}
	assert_eq!(c.seek(SeekFrom::Start(0)).unwrap(), 0);
	{
		let mut r = Reader::new(c);
		let p1 = r.read_packet().unwrap().unwrap();
		assert_eq!(test_arr, *p1.data);
		let p2 = r.read_packet().unwrap().unwrap();
		assert_eq!(test_arr_2, *p2.data);
		let p3 = r.read_packet().unwrap().unwrap();
		assert_eq!(test_arr_3, *p3.data);
	}
}

#[test]
fn test_ogg_packet_write() {
	let mut c = Cursor::new(Vec::new());

	// Test page taken from real Ogg file
	let test_arr_out = [
	0x4f, 0x67, 0x67, 0x53, 0x00, 0x02, 0x00, 0x00,
	0x00, 0x00, 0x00, 0x00, 0x00, 0x00, 0x74, 0xa3,
	0x90, 0x5b, 0x00, 0x00, 0x00, 0x00, 0x6d, 0x94,
	0x4e, 0x3d, 0x01, 0x1e, 0x01, 0x76, 0x6f, 0x72,
	0x62, 0x69, 0x73, 0x00, 0x00, 0x00, 0x00, 0x02,
	0x44, 0xac, 0x00, 0x00, 0x00, 0x00, 0x00, 0x00,
	0x80, 0xb5, 0x01, 0x00, 0x00, 0x00, 0x00, 0x00,
	0xb8, 0x01u8];
	let test_arr_in = [0x01, 0x76, 0x6f, 0x72,
	0x62, 0x69, 0x73, 0x00, 0x00, 0x00, 0x00, 0x02,
	0x44, 0xac, 0x00, 0x00, 0x00, 0x00, 0x00, 0x00,
	0x80, 0xb5, 0x01, 0x00, 0x00, 0x00, 0x00, 0x00,
	0xb8, 0x01u8];

	{
		let mut w = Writer::new(&mut c);
		w.write_packet(&test_arr_in, 0x5b90a374,
			PacketWriteEndInfo::EndPage, 0).unwrap();
	}
	assert_eq!(c.get_ref().len(), test_arr_out.len());

	let cr = c.get_ref();
	test_arr_eq(cr, &test_arr_out);
}

struct XorShift {
	state: (u32, u32, u32, u32),
}
impl XorShift {
	fn from_two(seed: (u32, u32)) -> Self {
		let mut xs = XorShift {
			state: (seed.0 ^ 0x2a24a930, seed.1 ^ 0xa9f60227,
				!seed.0 ^ 0x68c44d2d, !seed.1 ^ 0xa1f9794a)
		};
		xs.next();
		xs.next();
		xs.next();
		xs
	}

	fn next(&mut self) -> u32 {
		let mut r = self.state.3;
		r ^= r << 11;
		r ^= r >> 8;
		self.state.3 = self.state.2;
		self.state.2 = self.state.1;
		self.state.1 = self.state.0;
		r ^= self.state.0;
		r ^= self.state.0 >> 19;
		self.state.0 = r;
		r
	}
}

fn gen_pck(seed: u32, len_d_four: usize) -> Box<[u8]> {
	let mut ret = Vec::with_capacity(len_d_four * 4);
	let mut xs = XorShift::from_two((seed, len_d_four as u32));
	for _ in 0..len_d_four {
		let v = xs.next();
		ret.push(v as u8);
		ret.push((v >> 8) as u8);
		ret.push((v >> 16) as u8);
		ret.push((v >> 24) as u8);
	}
	ret.into_boxed_slice()
}

fn test_seek(r: &mut Reader<Cursor<Vec<u8>>>, absgp: u64) {
	// First, perform the seek
	r.seek_absgp(None, absgp).unwrap();
	// Then go to the searched packet inside the page
	// We know that all groups of three packets form one.
	for _ in 0 .. absgp % 3 {
		r.read_packet().unwrap();
	}
	// Now read the actual packet we are interested in and
	let pck = r.read_packet().unwrap().unwrap();
	// a) ensure we have a correct absolute granule pos
	// for the page and
	assert_eq!(absgp - (absgp % 3), pck.absgp_page() - 2);
	// b) ensure the packet's content matches with the one we
	// have put in. This is another insurance.
	test_arr_eq(&pck.data, &gen_pck(absgp as u32, pck.data.len() / 4));
}

fn ensure_continues(r: &mut Reader<Cursor<Vec<u8>>>, absgp: u32) {
	// Ensure the stream continues normally
	for k in 0..4 {
		let pck = r.read_packet().unwrap().unwrap();
		test_arr_eq(&pck.data, &gen_pck(absgp + k, pck.data.len() / 4));
	}
}

#[test]
fn test_seeking() {
	let pck_count = 402;
	let mut rng = XorShift::from_two((0x9899eb03, 0x54138143));

	let mut c = Cursor::new(Vec::new());

	{
		let mut w = Writer::new(&mut c);
		let np = PacketWriteEndInfo::NormalPacket;
		let ep = PacketWriteEndInfo::EndPage;

		for ctr in 0..pck_count {
			w.write_packet(&gen_pck(ctr, rng.next() as usize & 127), 0xdeadb33f,
				if (ctr + 1) % 3 == 0 { ep } else { np }, ctr as u64).unwrap();
		}
	}
	assert_eq!(c.seek(SeekFrom::Start(0)).unwrap(), 0);
	{
		let mut r = Reader::new(c);
		test_seek(&mut r, 32);
		test_seek(&mut r, 300);
		test_seek(&mut r, 314);
		test_seek(&mut r, 100);
		ensure_continues(&mut r, 101);
		test_seek(&mut r, 10);
		ensure_continues(&mut r, 11);
		// Ensure that if we seek to the same place multiple times, it doesn't
		// fill data needlessly.
		r.seek_absgp(None, 377).unwrap();
		r.seek_absgp(None, 377).unwrap();
		test_seek(&mut r, 377);
		ensure_continues(&mut r, 378);
		// Ensure that if we seek to the same place multiple times, it doesn't
		// fill data needlessly.
		r.seek_absgp(None, 200).unwrap();
		r.seek_absgp(None, 200).unwrap();
		test_seek(&mut r, 200);
		ensure_continues(&mut r, 201);
		// Ensure the final page can be sought to
		test_seek(&mut r, 401);
	}
}

#[test]
fn test_recapture() {
	// Test that we can deal with recapture
	// at varying distances.
	// This is a regression test
	let mut c = Cursor::new(Vec::new());
	let test_arr = [0, 1, 2, 3, 4, 5, 6, 7, 8, 9, 10];
	let test_arr_2 = [2, 4, 8, 16, 32, 64, 128, 127, 126, 125, 124];
	let test_arr_3 = [3, 5, 9, 17, 33, 65, 129, 129, 127, 126, 125];
	{
		let np = PacketWriteEndInfo::NormalPacket;
		let ep = PacketWriteEndInfo::EndPage;
		{
			let mut w = Writer::new(&mut c);
			w.write_packet(&test_arr[..], 0xdeadb33f, ep, 0).unwrap();

			// Now, after the end of the page, put in some noise.
			w.wtr.write_all(&[0; 38]).unwrap();

			w.write_packet(&test_arr_2[..], 0xdeadb33f, np, 1).unwrap();
			w.write_packet(&test_arr_3[..], 0xdeadb33f, ep, 2).unwrap();
		}
	}
	assert_eq!(c.seek(SeekFrom::Start(0)).unwrap(), 0);
	{
		let mut r = Reader::new(c);
		let p1 = r.read_packet().unwrap().unwrap();
		assert_eq!(test_arr, *p1.data);
		let p2 = r.read_packet().unwrap().unwrap();
		assert_eq!(test_arr_2, *p2.data);
		let p3 = r.read_packet().unwrap().unwrap();
		assert_eq!(test_arr_3, *p3.data);
	}
}

#[test]
fn packet_flags_and_positions() {
	let mut c = Cursor::new(Vec::new());
	{
		let mut w = Writer::new(&mut c);
		w.write_packet(&[1, 2, 3], 7, PacketWriteEndInfo::EndPage, 10).unwrap();
		w.write_packet(&[4, 5], 7, PacketWriteEndInfo::NormalPacket, 20).unwrap();
		w.write_packet(&[6], 7, PacketWriteEndInfo::EndStream, 30).unwrap();
	}
	c.seek(SeekFrom::Start(0)).unwrap();
	let mut r = Reader::new(c);
	let p1 = r.read_packet().unwrap().unwrap();
	assert!(p1.first_in_page() && p1.first_in_stream() && p1.last_in_page() && !p1.last_in_stream());
	assert_eq!(p1.absgp_page(), 10);
	assert_eq!(p1.stream_serial(), 7);
	let p2 = r.read_packet().unwrap().unwrap();
	assert!(p2.first_in_page() && !p2.first_in_stream() && !p2.last_in_page());
	assert_eq!(p2.absgp_page(), 30);
	let p3 = r.read_packet().unwrap().unwrap();
	assert_eq!(*p3.data, [6]);
	assert!(!p3.first_in_page() && p3.last_in_page() && p3.last_in_stream());
	assert_eq!(p3.checksum_page(), p2.checksum_page());
	assert!(r.read_packet().unwrap().is_none());
}

#[test]
fn two_streams_interleaved() {
	let mut c = Cursor::new(Vec::new());
	{
		let mut w = Writer::new(&mut c);
		w.write_packet(&[1; 10], 1, PacketWriteEndInfo::EndPage, 0).unwrap();
		w.write_packet(&[2; 20], 2, PacketWriteEndInfo::EndPage, 0).unwrap();
		w.write_packet(&[3; 600], 1, PacketWriteEndInfo::EndStream, 1).unwrap();
		w.write_packet(&[4; 30], 2, PacketWriteEndInfo::EndStream, 1).unwrap();
	}
	c.seek(SeekFrom::Start(0)).unwrap();
	let mut r = Reader::new(c);
	let expect: [(u32, usize, u8); 4] = [(1, 10, 1), (2, 20, 2), (1, 600, 3), (2, 30, 4)];
	for (serial, len, val) in expect.iter() {
		let p = r.read_packet().unwrap().unwrap();
		assert_eq!(p.stream_serial(), *serial);
		assert_eq!(p.data.len(), *len);
		assert!(p.data.iter().all(|b| b == val));
	}
	assert!(r.read_packet().unwrap().is_none());
}

#[test]
fn packet_of_exactly_one_full_page_of_segments() {
	// 255 * 255 bytes need 256 lacing values: the page ends mid-packet,
	// and the next page has only the terminating zero-size segment.
	let data: Vec<u8> = (0..255 * 255).map(|i: usize| (i % 251) as u8).collect();
	let mut c = Cursor::new(Vec::new());
	{
		let mut w = Writer::new(&mut c);
		w.write_packet(&data, 3, PacketWriteEndInfo::EndStream, 5).unwrap();
	}
	c.seek(SeekFrom::Start(0)).unwrap();
	let mut r = Reader::new(c);
	let p = r.read_packet().unwrap().unwrap();
	assert_eq!(p.data, data);
	assert!(p.last_in_stream());
	assert!(r.read_packet().unwrap().is_none());
}

#[test]
fn empty_packet_round_trips() {
	let mut c = Cursor::new(Vec::new());
	{
		let mut w = Writer::new(&mut c);
		w.write_packet(&[], 9, PacketWriteEndInfo::EndPage, 0).unwrap();
	}
	// One page: header, one lacing value of 0, no body.
	assert_eq!(c.get_ref().len(), 28);
	c.seek(SeekFrom::Start(0)).unwrap();
	let mut r = Reader::new(c);
	let p = r.read_packet().unwrap().unwrap();
	assert!(p.data.is_empty());
}

#[test]
fn corrupted_page_is_refused() {
	let mut c = Cursor::new(Vec::new());
	{
		let mut w = Writer::new(&mut c);
		w.write_packet(&[1, 2, 3, 4], 1, PacketWriteEndInfo::EndPage, 0).unwrap();
	}
	let mut bytes = c.into_inner();
	let last = bytes.len() - 1;
	bytes[last] ^= 0xff;
	let mut r = Reader::new(Cursor::new(bytes));
	match r.read_packet() {
		Err(OggReadError::HashMismatch(expected, calculated)) => assert_ne!(expected, calculated),
		_ => panic!("expected a hash mismatch"),
	}
}

#[test]
fn page_of_unknown_stream_without_first_flag_is_refused() {
	let mut c = Cursor::new(Vec::new());
	{
		let mut w = Writer::new(&mut c);
		w.write_packet(&[1], 1, PacketWriteEndInfo::EndPage, 0).unwrap();
		w.write_packet(&[2], 1, PacketWriteEndInfo::EndPage, 1).unwrap();
	}
	let bytes = c.into_inner();
	// Skip the first page (27 + 1 + 1 bytes): the second page lacks the first-page flag.
	let mut r = Reader::new(Cursor::new(bytes[29..].to_vec()));
	match r.read_packet() {
		Err(OggReadError::InvalidData) => (),
		_ => panic!("expected invalid data"),
	}
}

#[test]
fn pages_are_numbered_in_order() {
	// Three pages for the first packet (two full ones and the forced end), one
	// more for the second: sequence numbers 0 to 3, the first-page flag only
	// on the first page, the last-page flag only on the last one.
	let big: Vec<u8> = (0..2 * 255 * 255 + 10).map(|i: usize| (i % 7) as u8).collect();
	let mut c = Cursor::new(Vec::new());
	{
		let mut w = Writer::new(&mut c);
		w.write_packet(&big, 5, PacketWriteEndInfo::EndPage, 1).unwrap();
		w.write_packet(&[1, 2, 3], 5, PacketWriteEndInfo::EndStream, 2).unwrap();
	}
	let bytes = c.into_inner();
	let mut pos = 0;
	let mut seqs = Vec::new();
	let mut flags = Vec::new();
	while pos < bytes.len() {
		assert_eq!(&bytes[pos..pos + 4], b"OggS");
		flags.push(bytes[pos + 5]);
		seqs.push(u32::from_le_bytes([bytes[pos + 18], bytes[pos + 19], bytes[pos + 20], bytes[pos + 21]]));
		let nseg = bytes[pos + 26] as usize;
		let body: usize = bytes[pos + 27..pos + 27 + nseg].iter().map(|v| *v as usize).sum();
		pos += 27 + nseg + body;
	}
	assert_eq!(pos, bytes.len());
	assert_eq!(seqs, vec![0, 1, 2, 3]);
	assert_eq!(flags, vec![2, 1, 1, 4]);
}

#[test]
fn first_packet_of_a_stream_spanning_pages() {
	// The first packet fills two pages and ends on the third: it is still the
	// first packet of the stream; the one after it is not.
	let big: Vec<u8> = (0..2 * 255 * 255 + 10).map(|i: usize| (i % 13) as u8).collect();
	let mut c = Cursor::new(Vec::new());
	{
		let mut w = Writer::new(&mut c);
		w.write_packet(&big, 8, PacketWriteEndInfo::NormalPacket, 1).unwrap();
		w.write_packet(&[9, 9], 8, PacketWriteEndInfo::EndStream, 2).unwrap();
	}
	c.seek(SeekFrom::Start(0)).unwrap();
	let mut r = Reader::new(c);
	let p1 = r.read_packet().unwrap().unwrap();
	assert_eq!(p1.data, big);
	// It began two pages earlier: it is not the first packet starting in the
	// page it ends in; the packet after it is.
	assert!(p1.first_in_stream() && !p1.first_in_page());
	let p2 = r.read_packet().unwrap().unwrap();
	assert_eq!(p2.data, vec![9, 9]);
	assert!(!p2.first_in_stream() && p2.first_in_page() && p2.last_in_stream());
	assert!(r.read_packet().unwrap().is_none());
}

#[test]
fn after_a_seek_the_continued_packet_is_dropped() {
	// The second page begins with the end of a packet that began on the first
	// one. Read from the second page on after a seek, that end is dropped, and
	// the packets that start in the page come back, the first flagged so.
	let big: Vec<u8> = (0..255 * 255 + 10).map(|i: usize| (i % 11) as u8).collect();
	let mut c = Cursor::new(Vec::new());
	{
		let mut w = Writer::new(&mut c);
		w.write_packet(&big, 4, PacketWriteEndInfo::NormalPacket, 1).unwrap();
		w.write_packet(&[1, 2, 3], 4, PacketWriteEndInfo::NormalPacket, 2).unwrap();
		w.write_packet(&[4], 4, PacketWriteEndInfo::EndStream, 3).unwrap();
	}
	let bytes = c.into_inner();
	let first_page_len = 27 + 255 + 255 * 255;
	let mut r = Reader::new(Cursor::new(bytes[first_page_len..].to_vec()));
	r.base.update_after_seek();
	let p1 = r.read_packet().unwrap().unwrap();
	assert_eq!(p1.data, vec![1, 2, 3]);
	assert!(p1.first_in_page() && !p1.first_in_stream() && !p1.last_in_page());
	let p2 = r.read_packet().unwrap().unwrap();
	assert_eq!(p2.data, vec![4]);
	assert!(!p2.first_in_page() && p2.last_in_page() && p2.last_in_stream());
	assert!(r.read_packet().unwrap().is_none());
}
