//! The CRC-32 checksum with the parameters that the Ogg framing uses:
//! generator polynomial 0x04c11db7, no bit reflection, initial value 0
//! and no final xor.

use vstd::prelude::*;

verus! {

/// The generator polynomial of the Ogg checksum.
pub const CRC_POLYNOMIAL: u32 = 0x04c1_1db7;

/// One step of the polynomial division: shift left by one bit and
/// reduce by the generator polynomial when the top bit fell out.
pub open spec fn crc_shift(r: u32) -> u32 {
    if r & 0x8000_0000u32 == 0 {
        r << 1u32
    } else {
        (r << 1u32) ^ 0x04c1_1db7u32
    }
}

/// `n` division steps.
pub open spec fn crc_shift_n(r: u32, n: nat) -> u32
    decreases n,
{
    if n == 0 {
        r
    } else {
        crc_shift(crc_shift_n(r, (n - 1) as nat))
    }
}

/// Eight division steps, written out.
pub open spec fn crc_shift8(r: u32) -> u32 {
    crc_shift(crc_shift(crc_shift(crc_shift(crc_shift(crc_shift(crc_shift(crc_shift(r))))))))
}

/// The effect of one input byte on the running checksum register.
pub open spec fn crc_byte(r: u32, b: u8) -> u32 {
    crc_shift8(r ^ ((b as u32) << 24u32))
}

/// The checksum register after feeding `data` into a register holding `cur`.
pub open spec fn crc32_of(cur: u32, data: Seq<u8>) -> u32
    decreases data.len(),
{
    if data.len() == 0 {
        cur
    } else {
        crc_byte(crc32_of(cur, data.drop_last()), data.last())
    }
}

/// The entry of the lookup table for the byte value `idx`.
pub open spec fn crc_table_entry(idx: u32) -> u32 {
    crc_shift8(idx << 24u32)
}

proof fn lemma_shift_n_eight(r: u32)
    ensures
        crc_shift_n(r, 8) == crc_shift8(r),
{
    reveal_with_fuel(crc_shift_n, 9);
}

/// The table-driven update of one byte agrees with the bitwise definition.
proof fn lemma_table_step(ret: u32, b: u8)
    ensures
        ((b as u32) ^ (ret >> 24u32)) < 256,
        (ret << 8u32) ^ crc_table_entry((b as u32) ^ (ret >> 24u32)) == crc_byte(ret, b),
{
    let bb = b as u32;
    assert(bb < 256);
    assert(bb < 256 ==> (bb ^ (ret >> 24u32)) < 256) by (bit_vector);
    assert(bb < 256 ==> (ret << 8u32) ^ crc_shift8((bb ^ (ret >> 24u32)) << 24u32) == crc_shift8(
        ret ^ (bb << 24u32),
    )) by (bit_vector);
}

/// The lookup table for the bytewise checksum computation: entry `i` is the
/// checksum register after feeding the byte `i` into a zero register.
pub const CRC_LOOKUP_ARRAY: [u32; 256] = [
    0x00000000u32, 0x04c11db7u32, 0x09823b6eu32, 0x0d4326d9u32, 0x130476dcu32, 0x17c56b6bu32,
    0x1a864db2u32, 0x1e475005u32, 0x2608edb8u32, 0x22c9f00fu32, 0x2f8ad6d6u32, 0x2b4bcb61u32,
    0x350c9b64u32, 0x31cd86d3u32, 0x3c8ea00au32, 0x384fbdbdu32, 0x4c11db70u32, 0x48d0c6c7u32,
    0x4593e01eu32, 0x4152fda9u32, 0x5f15adacu32, 0x5bd4b01bu32, 0x569796c2u32, 0x52568b75u32,
    0x6a1936c8u32, 0x6ed82b7fu32, 0x639b0da6u32, 0x675a1011u32, 0x791d4014u32, 0x7ddc5da3u32,
    0x709f7b7au32, 0x745e66cdu32, 0x9823b6e0u32, 0x9ce2ab57u32, 0x91a18d8eu32, 0x95609039u32,
    0x8b27c03cu32, 0x8fe6dd8bu32, 0x82a5fb52u32, 0x8664e6e5u32, 0xbe2b5b58u32, 0xbaea46efu32,
    0xb7a96036u32, 0xb3687d81u32, 0xad2f2d84u32, 0xa9ee3033u32, 0xa4ad16eau32, 0xa06c0b5du32,
    0xd4326d90u32, 0xd0f37027u32, 0xddb056feu32, 0xd9714b49u32, 0xc7361b4cu32, 0xc3f706fbu32,
    0xceb42022u32, 0xca753d95u32, 0xf23a8028u32, 0xf6fb9d9fu32, 0xfbb8bb46u32, 0xff79a6f1u32,
    0xe13ef6f4u32, 0xe5ffeb43u32, 0xe8bccd9au32, 0xec7dd02du32, 0x34867077u32, 0x30476dc0u32,
    0x3d044b19u32, 0x39c556aeu32, 0x278206abu32, 0x23431b1cu32, 0x2e003dc5u32, 0x2ac12072u32,
    0x128e9dcfu32, 0x164f8078u32, 0x1b0ca6a1u32, 0x1fcdbb16u32, 0x018aeb13u32, 0x054bf6a4u32,
    0x0808d07du32, 0x0cc9cdcau32, 0x7897ab07u32, 0x7c56b6b0u32, 0x71159069u32, 0x75d48ddeu32,
    0x6b93dddbu32, 0x6f52c06cu32, 0x6211e6b5u32, 0x66d0fb02u32, 0x5e9f46bfu32, 0x5a5e5b08u32,
    0x571d7dd1u32, 0x53dc6066u32, 0x4d9b3063u32, 0x495a2dd4u32, 0x44190b0du32, 0x40d816bau32,
    0xaca5c697u32, 0xa864db20u32, 0xa527fdf9u32, 0xa1e6e04eu32, 0xbfa1b04bu32, 0xbb60adfcu32,
    0xb6238b25u32, 0xb2e29692u32, 0x8aad2b2fu32, 0x8e6c3698u32, 0x832f1041u32, 0x87ee0df6u32,
    0x99a95df3u32, 0x9d684044u32, 0x902b669du32, 0x94ea7b2au32, 0xe0b41de7u32, 0xe4750050u32,
    0xe9362689u32, 0xedf73b3eu32, 0xf3b06b3bu32, 0xf771768cu32, 0xfa325055u32, 0xfef34de2u32,
    0xc6bcf05fu32, 0xc27dede8u32, 0xcf3ecb31u32, 0xcbffd686u32, 0xd5b88683u32, 0xd1799b34u32,
    0xdc3abdedu32, 0xd8fba05au32, 0x690ce0eeu32, 0x6dcdfd59u32, 0x608edb80u32, 0x644fc637u32,
    0x7a089632u32, 0x7ec98b85u32, 0x738aad5cu32, 0x774bb0ebu32, 0x4f040d56u32, 0x4bc510e1u32,
    0x46863638u32, 0x42472b8fu32, 0x5c007b8au32, 0x58c1663du32, 0x558240e4u32, 0x51435d53u32,
    0x251d3b9eu32, 0x21dc2629u32, 0x2c9f00f0u32, 0x285e1d47u32, 0x36194d42u32, 0x32d850f5u32,
    0x3f9b762cu32, 0x3b5a6b9bu32, 0x0315d626u32, 0x07d4cb91u32, 0x0a97ed48u32, 0x0e56f0ffu32,
    0x1011a0fau32, 0x14d0bd4du32, 0x19939b94u32, 0x1d528623u32, 0xf12f560eu32, 0xf5ee4bb9u32,
    0xf8ad6d60u32, 0xfc6c70d7u32, 0xe22b20d2u32, 0xe6ea3d65u32, 0xeba91bbcu32, 0xef68060bu32,
    0xd727bbb6u32, 0xd3e6a601u32, 0xdea580d8u32, 0xda649d6fu32, 0xc423cd6au32, 0xc0e2d0ddu32,
    0xcda1f604u32, 0xc960ebb3u32, 0xbd3e8d7eu32, 0xb9ff90c9u32, 0xb4bcb610u32, 0xb07daba7u32,
    0xae3afba2u32, 0xaafbe615u32, 0xa7b8c0ccu32, 0xa379dd7bu32, 0x9b3660c6u32, 0x9ff77d71u32,
    0x92b45ba8u32, 0x9675461fu32, 0x8832161au32, 0x8cf30badu32, 0x81b02d74u32, 0x857130c3u32,
    0x5d8a9099u32, 0x594b8d2eu32, 0x5408abf7u32, 0x50c9b640u32, 0x4e8ee645u32, 0x4a4ffbf2u32,
    0x470cdd2bu32, 0x43cdc09cu32, 0x7b827d21u32, 0x7f436096u32, 0x7200464fu32, 0x76c15bf8u32,
    0x68860bfdu32, 0x6c47164au32, 0x61043093u32, 0x65c52d24u32, 0x119b4be9u32, 0x155a565eu32,
    0x18197087u32, 0x1cd86d30u32, 0x029f3d35u32, 0x065e2082u32, 0x0b1d065bu32, 0x0fdc1becu32,
    0x3793a651u32, 0x3352bbe6u32, 0x3e119d3fu32, 0x3ad08088u32, 0x2497d08du32, 0x2056cd3au32,
    0x2d15ebe3u32, 0x29d4f654u32, 0xc5a92679u32, 0xc1683bceu32, 0xcc2b1d17u32, 0xc8ea00a0u32,
    0xd6ad50a5u32, 0xd26c4d12u32, 0xdf2f6bcbu32, 0xdbee767cu32, 0xe3a1cbc1u32, 0xe760d676u32,
    0xea23f0afu32, 0xeee2ed18u32, 0xf0a5bd1du32, 0xf464a0aau32, 0xf9278673u32, 0xfde69bc4u32,
    0x89b8fd09u32, 0x8d79e0beu32, 0x803ac667u32, 0x84fbdbd0u32, 0x9abc8bd5u32, 0x9e7d9662u32,
    0x933eb0bbu32, 0x97ffad0cu32, 0xafb010b1u32, 0xab710d06u32, 0xa6322bdfu32, 0xa2f33668u32,
    0xbcb4666du32, 0xb8757bdau32, 0xb5365d03u32, 0xb1f740b4u32,
];

/// Every entry of the lookup table is the one its byte value calls for: the
/// entries are checked one by one, sixteen at a time.
proof fn lemma_lookup_table()
    ensures
        forall|i: int| 0 <= i < 256 ==> #[trigger] CRC_LOOKUP_ARRAY@[i] == crc_table_entry(i as u32),
{
    assert(
        crc_table_entry(0u32) == 0x00000000u32
        && crc_table_entry(1u32) == 0x04c11db7u32
        && crc_table_entry(2u32) == 0x09823b6eu32
        && crc_table_entry(3u32) == 0x0d4326d9u32
        && crc_table_entry(4u32) == 0x130476dcu32
        && crc_table_entry(5u32) == 0x17c56b6bu32
        && crc_table_entry(6u32) == 0x1a864db2u32
        && crc_table_entry(7u32) == 0x1e475005u32
        && crc_table_entry(8u32) == 0x2608edb8u32
        && crc_table_entry(9u32) == 0x22c9f00fu32
        && crc_table_entry(10u32) == 0x2f8ad6d6u32
        && crc_table_entry(11u32) == 0x2b4bcb61u32
        && crc_table_entry(12u32) == 0x350c9b64u32
        && crc_table_entry(13u32) == 0x31cd86d3u32
        && crc_table_entry(14u32) == 0x3c8ea00au32
        && crc_table_entry(15u32) == 0x384fbdbdu32
    ) by (bit_vector);
    assert(
        crc_table_entry(16u32) == 0x4c11db70u32
        && crc_table_entry(17u32) == 0x48d0c6c7u32
        && crc_table_entry(18u32) == 0x4593e01eu32
        && crc_table_entry(19u32) == 0x4152fda9u32
        && crc_table_entry(20u32) == 0x5f15adacu32
        && crc_table_entry(21u32) == 0x5bd4b01bu32
        && crc_table_entry(22u32) == 0x569796c2u32
        && crc_table_entry(23u32) == 0x52568b75u32
        && crc_table_entry(24u32) == 0x6a1936c8u32
        && crc_table_entry(25u32) == 0x6ed82b7fu32
        && crc_table_entry(26u32) == 0x639b0da6u32
        && crc_table_entry(27u32) == 0x675a1011u32
        && crc_table_entry(28u32) == 0x791d4014u32
        && crc_table_entry(29u32) == 0x7ddc5da3u32
        && crc_table_entry(30u32) == 0x709f7b7au32
        && crc_table_entry(31u32) == 0x745e66cdu32
    ) by (bit_vector);
    assert(
        crc_table_entry(32u32) == 0x9823b6e0u32
        && crc_table_entry(33u32) == 0x9ce2ab57u32
        && crc_table_entry(34u32) == 0x91a18d8eu32
        && crc_table_entry(35u32) == 0x95609039u32
        && crc_table_entry(36u32) == 0x8b27c03cu32
        && crc_table_entry(37u32) == 0x8fe6dd8bu32
        && crc_table_entry(38u32) == 0x82a5fb52u32
        && crc_table_entry(39u32) == 0x8664e6e5u32
        && crc_table_entry(40u32) == 0xbe2b5b58u32
        && crc_table_entry(41u32) == 0xbaea46efu32
        && crc_table_entry(42u32) == 0xb7a96036u32
        && crc_table_entry(43u32) == 0xb3687d81u32
        && crc_table_entry(44u32) == 0xad2f2d84u32
        && crc_table_entry(45u32) == 0xa9ee3033u32
        && crc_table_entry(46u32) == 0xa4ad16eau32
        && crc_table_entry(47u32) == 0xa06c0b5du32
    ) by (bit_vector);
    assert(
        crc_table_entry(48u32) == 0xd4326d90u32
        && crc_table_entry(49u32) == 0xd0f37027u32
        && crc_table_entry(50u32) == 0xddb056feu32
        && crc_table_entry(51u32) == 0xd9714b49u32
        && crc_table_entry(52u32) == 0xc7361b4cu32
        && crc_table_entry(53u32) == 0xc3f706fbu32
        && crc_table_entry(54u32) == 0xceb42022u32
        && crc_table_entry(55u32) == 0xca753d95u32
        && crc_table_entry(56u32) == 0xf23a8028u32
        && crc_table_entry(57u32) == 0xf6fb9d9fu32
        && crc_table_entry(58u32) == 0xfbb8bb46u32
        && crc_table_entry(59u32) == 0xff79a6f1u32
        && crc_table_entry(60u32) == 0xe13ef6f4u32
        && crc_table_entry(61u32) == 0xe5ffeb43u32
        && crc_table_entry(62u32) == 0xe8bccd9au32
        && crc_table_entry(63u32) == 0xec7dd02du32
    ) by (bit_vector);
    assert(
        crc_table_entry(64u32) == 0x34867077u32
        && crc_table_entry(65u32) == 0x30476dc0u32
        && crc_table_entry(66u32) == 0x3d044b19u32
        && crc_table_entry(67u32) == 0x39c556aeu32
        && crc_table_entry(68u32) == 0x278206abu32
        && crc_table_entry(69u32) == 0x23431b1cu32
        && crc_table_entry(70u32) == 0x2e003dc5u32
        && crc_table_entry(71u32) == 0x2ac12072u32
        && crc_table_entry(72u32) == 0x128e9dcfu32
        && crc_table_entry(73u32) == 0x164f8078u32
        && crc_table_entry(74u32) == 0x1b0ca6a1u32
        && crc_table_entry(75u32) == 0x1fcdbb16u32
        && crc_table_entry(76u32) == 0x018aeb13u32
        && crc_table_entry(77u32) == 0x054bf6a4u32
        && crc_table_entry(78u32) == 0x0808d07du32
        && crc_table_entry(79u32) == 0x0cc9cdcau32
    ) by (bit_vector);
    assert(
        crc_table_entry(80u32) == 0x7897ab07u32
        && crc_table_entry(81u32) == 0x7c56b6b0u32
        && crc_table_entry(82u32) == 0x71159069u32
        && crc_table_entry(83u32) == 0x75d48ddeu32
        && crc_table_entry(84u32) == 0x6b93dddbu32
        && crc_table_entry(85u32) == 0x6f52c06cu32
        && crc_table_entry(86u32) == 0x6211e6b5u32
        && crc_table_entry(87u32) == 0x66d0fb02u32
        && crc_table_entry(88u32) == 0x5e9f46bfu32
        && crc_table_entry(89u32) == 0x5a5e5b08u32
        && crc_table_entry(90u32) == 0x571d7dd1u32
        && crc_table_entry(91u32) == 0x53dc6066u32
        && crc_table_entry(92u32) == 0x4d9b3063u32
        && crc_table_entry(93u32) == 0x495a2dd4u32
        && crc_table_entry(94u32) == 0x44190b0du32
        && crc_table_entry(95u32) == 0x40d816bau32
    ) by (bit_vector);
    assert(
        crc_table_entry(96u32) == 0xaca5c697u32
        && crc_table_entry(97u32) == 0xa864db20u32
        && crc_table_entry(98u32) == 0xa527fdf9u32
        && crc_table_entry(99u32) == 0xa1e6e04eu32
        && crc_table_entry(100u32) == 0xbfa1b04bu32
        && crc_table_entry(101u32) == 0xbb60adfcu32
        && crc_table_entry(102u32) == 0xb6238b25u32
        && crc_table_entry(103u32) == 0xb2e29692u32
        && crc_table_entry(104u32) == 0x8aad2b2fu32
        && crc_table_entry(105u32) == 0x8e6c3698u32
        && crc_table_entry(106u32) == 0x832f1041u32
        && crc_table_entry(107u32) == 0x87ee0df6u32
        && crc_table_entry(108u32) == 0x99a95df3u32
        && crc_table_entry(109u32) == 0x9d684044u32
        && crc_table_entry(110u32) == 0x902b669du32
        && crc_table_entry(111u32) == 0x94ea7b2au32
    ) by (bit_vector);
    assert(
        crc_table_entry(112u32) == 0xe0b41de7u32
        && crc_table_entry(113u32) == 0xe4750050u32
        && crc_table_entry(114u32) == 0xe9362689u32
        && crc_table_entry(115u32) == 0xedf73b3eu32
        && crc_table_entry(116u32) == 0xf3b06b3bu32
        && crc_table_entry(117u32) == 0xf771768cu32
        && crc_table_entry(118u32) == 0xfa325055u32
        && crc_table_entry(119u32) == 0xfef34de2u32
        && crc_table_entry(120u32) == 0xc6bcf05fu32
        && crc_table_entry(121u32) == 0xc27dede8u32
        && crc_table_entry(122u32) == 0xcf3ecb31u32
        && crc_table_entry(123u32) == 0xcbffd686u32
        && crc_table_entry(124u32) == 0xd5b88683u32
        && crc_table_entry(125u32) == 0xd1799b34u32
        && crc_table_entry(126u32) == 0xdc3abdedu32
        && crc_table_entry(127u32) == 0xd8fba05au32
    ) by (bit_vector);
    assert(
        crc_table_entry(128u32) == 0x690ce0eeu32
        && crc_table_entry(129u32) == 0x6dcdfd59u32
        && crc_table_entry(130u32) == 0x608edb80u32
        && crc_table_entry(131u32) == 0x644fc637u32
        && crc_table_entry(132u32) == 0x7a089632u32
        && crc_table_entry(133u32) == 0x7ec98b85u32
        && crc_table_entry(134u32) == 0x738aad5cu32
        && crc_table_entry(135u32) == 0x774bb0ebu32
        && crc_table_entry(136u32) == 0x4f040d56u32
        && crc_table_entry(137u32) == 0x4bc510e1u32
        && crc_table_entry(138u32) == 0x46863638u32
        && crc_table_entry(139u32) == 0x42472b8fu32
        && crc_table_entry(140u32) == 0x5c007b8au32
        && crc_table_entry(141u32) == 0x58c1663du32
        && crc_table_entry(142u32) == 0x558240e4u32
        && crc_table_entry(143u32) == 0x51435d53u32
    ) by (bit_vector);
    assert(
        crc_table_entry(144u32) == 0x251d3b9eu32
        && crc_table_entry(145u32) == 0x21dc2629u32
        && crc_table_entry(146u32) == 0x2c9f00f0u32
        && crc_table_entry(147u32) == 0x285e1d47u32
        && crc_table_entry(148u32) == 0x36194d42u32
        && crc_table_entry(149u32) == 0x32d850f5u32
        && crc_table_entry(150u32) == 0x3f9b762cu32
        && crc_table_entry(151u32) == 0x3b5a6b9bu32
        && crc_table_entry(152u32) == 0x0315d626u32
        && crc_table_entry(153u32) == 0x07d4cb91u32
        && crc_table_entry(154u32) == 0x0a97ed48u32
        && crc_table_entry(155u32) == 0x0e56f0ffu32
        && crc_table_entry(156u32) == 0x1011a0fau32
        && crc_table_entry(157u32) == 0x14d0bd4du32
        && crc_table_entry(158u32) == 0x19939b94u32
        && crc_table_entry(159u32) == 0x1d528623u32
    ) by (bit_vector);
    assert(
        crc_table_entry(160u32) == 0xf12f560eu32
        && crc_table_entry(161u32) == 0xf5ee4bb9u32
        && crc_table_entry(162u32) == 0xf8ad6d60u32
        && crc_table_entry(163u32) == 0xfc6c70d7u32
        && crc_table_entry(164u32) == 0xe22b20d2u32
        && crc_table_entry(165u32) == 0xe6ea3d65u32
        && crc_table_entry(166u32) == 0xeba91bbcu32
        && crc_table_entry(167u32) == 0xef68060bu32
        && crc_table_entry(168u32) == 0xd727bbb6u32
        && crc_table_entry(169u32) == 0xd3e6a601u32
        && crc_table_entry(170u32) == 0xdea580d8u32
        && crc_table_entry(171u32) == 0xda649d6fu32
        && crc_table_entry(172u32) == 0xc423cd6au32
        && crc_table_entry(173u32) == 0xc0e2d0ddu32
        && crc_table_entry(174u32) == 0xcda1f604u32
        && crc_table_entry(175u32) == 0xc960ebb3u32
    ) by (bit_vector);
    assert(
        crc_table_entry(176u32) == 0xbd3e8d7eu32
        && crc_table_entry(177u32) == 0xb9ff90c9u32
        && crc_table_entry(178u32) == 0xb4bcb610u32
        && crc_table_entry(179u32) == 0xb07daba7u32
        && crc_table_entry(180u32) == 0xae3afba2u32
        && crc_table_entry(181u32) == 0xaafbe615u32
        && crc_table_entry(182u32) == 0xa7b8c0ccu32
        && crc_table_entry(183u32) == 0xa379dd7bu32
        && crc_table_entry(184u32) == 0x9b3660c6u32
        && crc_table_entry(185u32) == 0x9ff77d71u32
        && crc_table_entry(186u32) == 0x92b45ba8u32
        && crc_table_entry(187u32) == 0x9675461fu32
        && crc_table_entry(188u32) == 0x8832161au32
        && crc_table_entry(189u32) == 0x8cf30badu32
        && crc_table_entry(190u32) == 0x81b02d74u32
        && crc_table_entry(191u32) == 0x857130c3u32
    ) by (bit_vector);
    assert(
        crc_table_entry(192u32) == 0x5d8a9099u32
        && crc_table_entry(193u32) == 0x594b8d2eu32
        && crc_table_entry(194u32) == 0x5408abf7u32
        && crc_table_entry(195u32) == 0x50c9b640u32
        && crc_table_entry(196u32) == 0x4e8ee645u32
        && crc_table_entry(197u32) == 0x4a4ffbf2u32
        && crc_table_entry(198u32) == 0x470cdd2bu32
        && crc_table_entry(199u32) == 0x43cdc09cu32
        && crc_table_entry(200u32) == 0x7b827d21u32
        && crc_table_entry(201u32) == 0x7f436096u32
        && crc_table_entry(202u32) == 0x7200464fu32
        && crc_table_entry(203u32) == 0x76c15bf8u32
        && crc_table_entry(204u32) == 0x68860bfdu32
        && crc_table_entry(205u32) == 0x6c47164au32
        && crc_table_entry(206u32) == 0x61043093u32
        && crc_table_entry(207u32) == 0x65c52d24u32
    ) by (bit_vector);
    assert(
        crc_table_entry(208u32) == 0x119b4be9u32
        && crc_table_entry(209u32) == 0x155a565eu32
        && crc_table_entry(210u32) == 0x18197087u32
        && crc_table_entry(211u32) == 0x1cd86d30u32
        && crc_table_entry(212u32) == 0x029f3d35u32
        && crc_table_entry(213u32) == 0x065e2082u32
        && crc_table_entry(214u32) == 0x0b1d065bu32
        && crc_table_entry(215u32) == 0x0fdc1becu32
        && crc_table_entry(216u32) == 0x3793a651u32
        && crc_table_entry(217u32) == 0x3352bbe6u32
        && crc_table_entry(218u32) == 0x3e119d3fu32
        && crc_table_entry(219u32) == 0x3ad08088u32
        && crc_table_entry(220u32) == 0x2497d08du32
        && crc_table_entry(221u32) == 0x2056cd3au32
        && crc_table_entry(222u32) == 0x2d15ebe3u32
        && crc_table_entry(223u32) == 0x29d4f654u32
    ) by (bit_vector);
    assert(
        crc_table_entry(224u32) == 0xc5a92679u32
        && crc_table_entry(225u32) == 0xc1683bceu32
        && crc_table_entry(226u32) == 0xcc2b1d17u32
        && crc_table_entry(227u32) == 0xc8ea00a0u32
        && crc_table_entry(228u32) == 0xd6ad50a5u32
        && crc_table_entry(229u32) == 0xd26c4d12u32
        && crc_table_entry(230u32) == 0xdf2f6bcbu32
        && crc_table_entry(231u32) == 0xdbee767cu32
        && crc_table_entry(232u32) == 0xe3a1cbc1u32
        && crc_table_entry(233u32) == 0xe760d676u32
        && crc_table_entry(234u32) == 0xea23f0afu32
        && crc_table_entry(235u32) == 0xeee2ed18u32
        && crc_table_entry(236u32) == 0xf0a5bd1du32
        && crc_table_entry(237u32) == 0xf464a0aau32
        && crc_table_entry(238u32) == 0xf9278673u32
        && crc_table_entry(239u32) == 0xfde69bc4u32
    ) by (bit_vector);
    assert(
        crc_table_entry(240u32) == 0x89b8fd09u32
        && crc_table_entry(241u32) == 0x8d79e0beu32
        && crc_table_entry(242u32) == 0x803ac667u32
        && crc_table_entry(243u32) == 0x84fbdbd0u32
        && crc_table_entry(244u32) == 0x9abc8bd5u32
        && crc_table_entry(245u32) == 0x9e7d9662u32
        && crc_table_entry(246u32) == 0x933eb0bbu32
        && crc_table_entry(247u32) == 0x97ffad0cu32
        && crc_table_entry(248u32) == 0xafb010b1u32
        && crc_table_entry(249u32) == 0xab710d06u32
        && crc_table_entry(250u32) == 0xa6322bdfu32
        && crc_table_entry(251u32) == 0xa2f33668u32
        && crc_table_entry(252u32) == 0xbcb4666du32
        && crc_table_entry(253u32) == 0xb8757bdau32
        && crc_table_entry(254u32) == 0xb5365d03u32
        && crc_table_entry(255u32) == 0xb1f740b4u32
    ) by (bit_vector);
    assert forall|i: int| 0 <= i < 256 implies #[trigger] CRC_LOOKUP_ARRAY@[i] == crc_table_entry(
        i as u32,
    ) by {
        assert(
            i == 0 || i == 1 || i == 2 || i == 3 || i == 4 || i == 5 || i == 6 || i == 7
            || i == 8 || i == 9 || i == 10 || i == 11 || i == 12 || i == 13 || i == 14 || i == 15
            || i == 16 || i == 17 || i == 18 || i == 19 || i == 20 || i == 21 || i == 22 || i == 23
            || i == 24 || i == 25 || i == 26 || i == 27 || i == 28 || i == 29 || i == 30 || i == 31
            || i == 32 || i == 33 || i == 34 || i == 35 || i == 36 || i == 37 || i == 38 || i == 39
            || i == 40 || i == 41 || i == 42 || i == 43 || i == 44 || i == 45 || i == 46 || i == 47
            || i == 48 || i == 49 || i == 50 || i == 51 || i == 52 || i == 53 || i == 54 || i == 55
            || i == 56 || i == 57 || i == 58 || i == 59 || i == 60 || i == 61 || i == 62 || i == 63
            || i == 64 || i == 65 || i == 66 || i == 67 || i == 68 || i == 69 || i == 70 || i == 71
            || i == 72 || i == 73 || i == 74 || i == 75 || i == 76 || i == 77 || i == 78 || i == 79
            || i == 80 || i == 81 || i == 82 || i == 83 || i == 84 || i == 85 || i == 86 || i == 87
            || i == 88 || i == 89 || i == 90 || i == 91 || i == 92 || i == 93 || i == 94 || i == 95
            || i == 96 || i == 97 || i == 98 || i == 99 || i == 100 || i == 101 || i == 102 || i == 103
            || i == 104 || i == 105 || i == 106 || i == 107 || i == 108 || i == 109 || i == 110 || i == 111
            || i == 112 || i == 113 || i == 114 || i == 115 || i == 116 || i == 117 || i == 118 || i == 119
            || i == 120 || i == 121 || i == 122 || i == 123 || i == 124 || i == 125 || i == 126 || i == 127
            || i == 128 || i == 129 || i == 130 || i == 131 || i == 132 || i == 133 || i == 134 || i == 135
            || i == 136 || i == 137 || i == 138 || i == 139 || i == 140 || i == 141 || i == 142 || i == 143
            || i == 144 || i == 145 || i == 146 || i == 147 || i == 148 || i == 149 || i == 150 || i == 151
            || i == 152 || i == 153 || i == 154 || i == 155 || i == 156 || i == 157 || i == 158 || i == 159
            || i == 160 || i == 161 || i == 162 || i == 163 || i == 164 || i == 165 || i == 166 || i == 167
            || i == 168 || i == 169 || i == 170 || i == 171 || i == 172 || i == 173 || i == 174 || i == 175
            || i == 176 || i == 177 || i == 178 || i == 179 || i == 180 || i == 181 || i == 182 || i == 183
            || i == 184 || i == 185 || i == 186 || i == 187 || i == 188 || i == 189 || i == 190 || i == 191
            || i == 192 || i == 193 || i == 194 || i == 195 || i == 196 || i == 197 || i == 198 || i == 199
            || i == 200 || i == 201 || i == 202 || i == 203 || i == 204 || i == 205 || i == 206 || i == 207
            || i == 208 || i == 209 || i == 210 || i == 211 || i == 212 || i == 213 || i == 214 || i == 215
            || i == 216 || i == 217 || i == 218 || i == 219 || i == 220 || i == 221 || i == 222 || i == 223
            || i == 224 || i == 225 || i == 226 || i == 227 || i == 228 || i == 229 || i == 230 || i == 231
            || i == 232 || i == 233 || i == 234 || i == 235 || i == 236 || i == 237 || i == 238 || i == 239
            || i == 240 || i == 241 || i == 242 || i == 243 || i == 244 || i == 245 || i == 246 || i == 247
            || i == 248 || i == 249 || i == 250 || i == 251 || i == 252 || i == 253 || i == 254 || i == 255
        );
    }
}

/// Computes the table entry for the byte value `idx`.
pub fn get_tbl_elem(idx: u32) -> (r: u32)
    ensures
        r == crc_table_entry(idx),
{
    let mut r: u32 = idx << 24u32;
    let mut i: u32 = 0;
    while i < 8
        invariant
            i <= 8,
            r == crc_shift_n(idx << 24u32, i as nat),
        decreases 8 - i,
    {
        let top: u32 = (r >> 31u32) & 1;
        assert(top <= 1) by (bit_vector)
            requires
                top == (r >> 31u32) & 1,
        ;
        let mask: u32 = 0u32.wrapping_sub(top);
        assert(mask == (if top == 0 { 0u32 } else { 0xffff_ffffu32 }));
        let next: u32 = (r << 1u32) ^ (mask & CRC_POLYNOMIAL);
        assert(next == crc_shift(r)) by (bit_vector)
            requires
                top == (r >> 31u32) & 1,
                mask == (if top == 0 { 0u32 } else { 0xffff_ffffu32 }),
                next == (r << 1u32) ^ (mask & 0x04c1_1db7u32),
        ;
        r = next;
        i = i + 1;
    }
    proof {
        lemma_shift_n_eight(idx << 24u32);
    }
    r
}

/// Builds the lookup table for the bytewise checksum computation.
pub fn lookup_array() -> (tbl: [u32; 256])
    ensures
        forall|i: int| 0 <= i < 256 ==> #[trigger] tbl[i] == crc_table_entry(i as u32),
{
    let mut lup_arr: [u32; 256] = [0u32; 256];
    let mut i: usize = 0;
    while i < 256
        invariant
            i <= 256,
            forall|j: int| 0 <= j < i ==> #[trigger] lup_arr[j] == crc_table_entry(j as u32),
        decreases 256 - i,
    {
        lup_arr[i] = get_tbl_elem(i as u32);
        i = i + 1;
    }
    lup_arr
}

/// The entry of the lookup table for the byte value `idx`.
fn table_lookup(idx: u32) -> (r: u32)
    requires
        idx < 256,
    ensures
        r == crc_table_entry(idx),
{
    proof {
        lemma_lookup_table();
    }
    CRC_LOOKUP_ARRAY[idx as usize]
}

/// Feeds `array` into a checksum register holding `cur` and returns the new register.
pub fn vorbis_crc32_update(cur: u32, array: &[u8]) -> (ret: u32)
    ensures
        ret == crc32_of(cur, array@),
{
    let mut ret: u32 = cur;
    let mut i: usize = 0;
    while i < array.len()
        invariant
            i <= array@.len(),
            ret == crc32_of(cur, array@.take(i as int)),
        decreases array@.len() - i,
    {
        let av: u8 = array[i];
        proof {
            lemma_table_step(ret, av);
            assert(array@.take(i + 1).drop_last() =~= array@.take(i as int));
        }
        let idx: u32 = (av as u32) ^ (ret >> 24u32);
        ret = (ret << 8u32) ^ table_lookup(idx);
        i = i + 1;
    }
    assert(array@.take(array@.len() as int) =~= array@);
    ret
}

/// The checksum of `array`, starting from a zero register.
pub fn vorbis_crc32(array: &[u8]) -> (ret: u32)
    ensures
        ret == crc32_of(0, array@),
{
    vorbis_crc32_update(0, array)
}

/// Feeding two pieces one after the other is the same as feeding their concatenation.
pub proof fn lemma_crc32_concat(cur: u32, a: Seq<u8>, b: Seq<u8>)
    ensures
        crc32_of(crc32_of(cur, a), b) == crc32_of(cur, a + b),
    decreases b.len(),
{
    if b.len() == 0 {
        assert(a + b =~= a);
    } else {
        lemma_crc32_concat(cur, a, b.drop_last());
        assert((a + b).drop_last() =~= a + b.drop_last());
        assert((a + b).last() == b.last());
    }
}

} // verus!
