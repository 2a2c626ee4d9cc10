use rust_persist::header::{
    get_byte, is_be, read_u16, read_u32, read_u64, total_size, write_number, Header, INDEX_HEADER,
    INITIAL_DATA_SIZE, INITIAL_INDEX_CAPACITY,
};

fn header() -> Header {
    Header { header: INDEX_HEADER, flags: [0; 16], index_capacity: 128 }
}

#[test]
fn magic_is_the_name_of_the_format() {
    assert_eq!(&INDEX_HEADER, b"rust-persist-01\n");
    assert_eq!(INITIAL_INDEX_CAPACITY, 128);
    assert_eq!(INITIAL_DATA_SIZE, 0);
    assert_eq!(total_size(128, 0), 3108);
    assert_eq!(total_size(256, 1000), 36 + 256 * 24 + 1000);
}

#[test]
fn flags_are_single_bits() {
    let mut h = header();
    assert!(!h.is_dirty());
    h.set_dirty(true);
    assert!(h.is_dirty());
    assert_eq!(h.flags[0], 1);
    h.set_flag(0, 1, true);
    assert_eq!(h.flags[0], 3);
    assert!(h.get_flag(0, 1));
    h.set_dirty(false);
    assert_eq!(h.flags[0], 2);
    assert!(!h.is_dirty());
    h.set_flag(15, 7, true);
    assert_eq!(h.flags[15], 0x80);
    assert!(h.get_flag(15, 7));
    assert!(!h.get_flag(15, 6));
    h.set_flag(15, 7, false);
    assert_eq!(h.flags[15], 0);
}

#[test]
fn byte_order_of_the_machine() {
    let big = u16::from_ne_bytes([0, 1]) == 1;
    assert_eq!(is_be(), big);
    let mut h = header();
    h.set_correct_endianness();
    assert_eq!(h.get_flag(0, 1), big);
    assert!(h.has_correct_endianness());
    assert!(h.has_endianness(big));
    h.set_endianness(!big);
    assert!(!h.has_correct_endianness());
}

#[test]
fn capacity_turns_round() {
    let mut h = header();
    h.index_capacity = 0x01020304;
    h.fix_endianness();
    assert_eq!(h.index_capacity, 0x04030201);
    h.fix_endianness();
    assert_eq!(h.index_capacity, 0x01020304);
}

#[test]
fn numbers_in_both_byte_orders() {
    let bytes = [1u8, 2, 3, 4, 5, 6, 7, 8, 9];
    assert_eq!(read_u16(&bytes, 0, false), 0x0201);
    assert_eq!(read_u16(&bytes, 0, true), 0x0102);
    assert_eq!(read_u32(&bytes, 1, false), 0x05040302);
    assert_eq!(read_u32(&bytes, 1, true), 0x02030405);
    assert_eq!(read_u64(&bytes, 1, false), 0x0908070605040302);
    assert_eq!(read_u64(&bytes, 1, true), 0x0203040506070809);
    assert_eq!(get_byte(0x0102030405060708, 0), 8);
    assert_eq!(get_byte(0x0102030405060708, 7), 1);
    let mut out = vec![0xffu8];
    write_number(&mut out, 0x0102030405060708, 8, false);
    write_number(&mut out, 0x0102, 2, true);
    write_number(&mut out, 0x01020304, 4, true);
    assert_eq!(out, vec![0xff, 8, 7, 6, 5, 4, 3, 2, 1, 1, 2, 1, 2, 3, 4]);
}
