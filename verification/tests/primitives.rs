use dicom_rs::modules::io::{
    read_i16, read_i32, read_i64, read_u16, read_u32, read_u64, Endianness,
};

const BYTES: [u8; 10] = [0x01, 0x23, 0x45, 0x67, 0x89, 0xAB, 0xCD, 0xEF, 0xFE, 0xFF];

#[test]
fn read_u16_in_both_orders() {
    let mut off = 0;
    assert_eq!(read_u16(&BYTES, &mut off, Endianness::Little), Some(0x2301));
    assert_eq!(off, 2);
    assert_eq!(read_u16(&BYTES, &mut off, Endianness::Big), Some(0x4567));
    assert_eq!(off, 4);
    let mut off = 8;
    assert_eq!(read_u16(&BYTES, &mut off, Endianness::Little), Some(0xFFFE));
    assert_eq!(off, 10);
}

#[test]
fn read_u32_in_both_orders() {
    let mut off = 0;
    assert_eq!(read_u32(&BYTES, &mut off, Endianness::Little), Some(0x6745_2301));
    assert_eq!(off, 4);
    assert_eq!(read_u32(&BYTES, &mut off, Endianness::Big), Some(0x89AB_CDEF));
    assert_eq!(off, 8);
    let mut off = 6;
    assert_eq!(read_u32(&BYTES, &mut off, Endianness::Little), Some(0xFFFE_EFCD));
    assert_eq!(off, 10);
}

#[test]
fn read_u64_in_both_orders() {
    let mut off = 0;
    assert_eq!(read_u64(&BYTES, &mut off, Endianness::Little), Some(0xEFCD_AB89_6745_2301));
    assert_eq!(off, 8);
    let mut off = 2;
    assert_eq!(read_u64(&BYTES, &mut off, Endianness::Big), Some(0x4567_89AB_CDEF_FEFF));
    assert_eq!(off, 10);
    let top = [0xFFu8; 8];
    let mut off = 0;
    assert_eq!(read_u64(&top, &mut off, Endianness::Big), Some(u64::MAX));
}

#[test]
fn signed_reads_are_twos_complement() {
    let mut off = 8;
    assert_eq!(read_i16(&BYTES, &mut off, Endianness::Little), Some(-2));
    assert_eq!(off, 10);
    let mut off = 8;
    assert_eq!(read_i16(&BYTES, &mut off, Endianness::Big), Some(-257));
    let mut off = 0;
    assert_eq!(read_i16(&BYTES, &mut off, Endianness::Little), Some(0x2301));
    let mut off = 4;
    assert_eq!(read_i32(&BYTES, &mut off, Endianness::Big), Some(0x89AB_CDEFu32 as i32));
    assert_eq!(off, 8);
    let mut off = 6;
    assert_eq!(read_i32(&BYTES, &mut off, Endianness::Little), Some(-69683));
    let mut off = 0;
    assert_eq!(read_i32(&BYTES, &mut off, Endianness::Little), Some(0x6745_2301));
    let mut off = 0;
    assert_eq!(
        read_i64(&BYTES, &mut off, Endianness::Little),
        Some(0xEFCD_AB89_6745_2301u64 as i64)
    );
    assert_eq!(off, 8);
    let mut off = 0;
    assert_eq!(read_i64(&BYTES, &mut off, Endianness::Big), Some(0x0123_4567_89AB_CDEF));
}

#[test]
fn the_extremes_of_the_signed_types() {
    let mut off = 0;
    assert_eq!(read_i16(&[0x00, 0x80], &mut off, Endianness::Little), Some(i16::MIN));
    let mut off = 0;
    assert_eq!(read_i16(&[0xFF, 0x7F], &mut off, Endianness::Little), Some(i16::MAX));
    let mut off = 0;
    assert_eq!(read_i16(&[0xFF, 0xFF], &mut off, Endianness::Big), Some(-1));
    let mut off = 0;
    assert_eq!(read_i32(&[0x80, 0, 0, 0], &mut off, Endianness::Big), Some(i32::MIN));
    let mut off = 0;
    assert_eq!(read_i32(&[0xFF, 0xFF, 0xFF, 0x7F], &mut off, Endianness::Little), Some(i32::MAX));
    let mut off = 0;
    assert_eq!(read_i32(&[0xFF; 4], &mut off, Endianness::Little), Some(-1));
    let mut off = 0;
    assert_eq!(read_i64(&[0x80, 0, 0, 0, 0, 0, 0, 0], &mut off, Endianness::Big), Some(i64::MIN));
    let mut off = 0;
    assert_eq!(
        read_i64(&[0xFF, 0xFF, 0xFF, 0xFF, 0xFF, 0xFF, 0xFF, 0x7F], &mut off, Endianness::Little),
        Some(i64::MAX)
    );
    let mut off = 0;
    assert_eq!(read_i64(&[0xFF; 8], &mut off, Endianness::Big), Some(-1));
}

#[test]
fn a_read_past_the_end_fails_and_leaves_the_cursor() {
    let mut off = 9;
    assert_eq!(read_u16(&BYTES, &mut off, Endianness::Little), None);
    assert_eq!(off, 9);
    let mut off = 7;
    assert_eq!(read_u32(&BYTES, &mut off, Endianness::Big), None);
    assert_eq!(off, 7);
    let mut off = 3;
    assert_eq!(read_u64(&BYTES, &mut off, Endianness::Big), None);
    assert_eq!(off, 3);
    let mut off = 10;
    assert_eq!(read_i16(&BYTES, &mut off, Endianness::Big), None);
    assert_eq!(off, 10);
    let mut off = 7;
    assert_eq!(read_i32(&BYTES, &mut off, Endianness::Little), None);
    assert_eq!(off, 7);
    let mut off = 3;
    assert_eq!(read_i64(&BYTES, &mut off, Endianness::Little), None);
    assert_eq!(off, 3);
}

#[test]
fn a_cursor_far_behind_the_end_is_no_trouble() {
    let mut off = usize::MAX;
    assert_eq!(read_u16(&BYTES, &mut off, Endianness::Little), None);
    assert_eq!(off, usize::MAX);
    let mut off = usize::MAX - 1;
    assert_eq!(read_u32(&BYTES, &mut off, Endianness::Little), None);
    assert_eq!(off, usize::MAX - 1);
    let mut off = usize::MAX - 3;
    assert_eq!(read_u64(&[], &mut off, Endianness::Little), None);
    assert_eq!(off, usize::MAX - 3);
    let mut off = 0;
    assert_eq!(read_u16(&[], &mut off, Endianness::Little), None);
    assert_eq!(read_u16(&[1], &mut off, Endianness::Little), None);
    assert_eq!(off, 0);
}

#[test]
fn big_endian_reads_the_swapped_bytes_of_little_endian() {
    let swapped: Vec<u8> = BYTES.iter().rev().cloned().collect();
    let mut a = 0;
    let mut b = 8;
    assert_eq!(
        read_u16(&BYTES, &mut a, Endianness::Big),
        read_u16(&swapped, &mut b, Endianness::Little)
    );
    let mut a = 2;
    let mut b = 4;
    assert_eq!(
        read_u32(&BYTES, &mut a, Endianness::Big),
        read_u32(&swapped, &mut b, Endianness::Little)
    );
    let mut a = 1;
    let mut b = 1;
    assert_eq!(
        read_u64(&BYTES, &mut a, Endianness::Big),
        read_u64(&swapped, &mut b, Endianness::Little)
    );
}
