use ogg::crc::{vorbis_crc32, vorbis_crc32_update, get_tbl_elem, lookup_array};

#[test]
fn test_crc32() {
	// Test page taken from real Ogg file
	let test_arr = &[
	0x4f, 0x67, 0x67, 0x53, 0x00, 0x02, 0x00, 0x00,
	0x00, 0x00, 0x00, 0x00, 0x00, 0x00, 0x74, 0xa3,
	0x90, 0x5b, 0x00, 0x00, 0x00, 0x00,
	// The spec requires us to zero out the CRC field
	/*0x6d, 0x94, 0x4e, 0x3d,*/ 0x00, 0x00, 0x00, 0x00,
	0x01, 0x1e, 0x01, 0x76, 0x6f, 0x72,
	0x62, 0x69, 0x73, 0x00, 0x00, 0x00, 0x00, 0x02,
	0x44, 0xac, 0x00, 0x00, 0x00, 0x00, 0x00, 0x00,
	0x80, 0xb5, 0x01, 0x00, 0x00, 0x00, 0x00, 0x00,
	0xb8, 0x01];
	println!();
	println!("CRC of \"==!\" calculated as 0x{:08x} (expected 0x9f858776)", vorbis_crc32(&[61,61,33]));
	println!("Test page CRC calculated as 0x{:08x} (expected 0x3d4e946d)", vorbis_crc32(test_arr));
	assert_eq!(vorbis_crc32(&[61,61,33]), 0x9f858776);
	assert_eq!(vorbis_crc32(test_arr), 0x3d4e946d);
	assert_eq!(vorbis_crc32(&test_arr[0 .. 27]), 0x7b374db8);
}

#[test]
fn crc_of_nothing_is_the_start_value() {
	assert_eq!(vorbis_crc32(&[]), 0);
	assert_eq!(vorbis_crc32_update(0x1234_5678, &[]), 0x1234_5678);
}

#[test]
fn crc_update_in_pieces_matches_whole() {
	let data: Vec<u8> = (0u32..300).map(|i| (i * 7 + 3) as u8).collect();
	let whole = vorbis_crc32(&data);
	let first = vorbis_crc32_update(0, &data[..123]);
	assert_eq!(vorbis_crc32_update(first, &data[123..]), whole);
}

#[test]
fn crc_table_entries() {
	let tbl = lookup_array();
	assert_eq!(tbl[0], 0);
	assert_eq!(tbl[1], 0x04c11db7);
	assert_eq!(get_tbl_elem(1), 0x04c11db7);
	assert_eq!(tbl[255], get_tbl_elem(255));
	assert_eq!(tbl[128], 0x690ce0ee);
}

#[test]
fn table_entry_of_a_wide_index_uses_its_low_byte() {
	assert_eq!(get_tbl_elem(0x101), get_tbl_elem(1));
	assert_eq!(get_tbl_elem(0xffff_ff00), 0);
}
