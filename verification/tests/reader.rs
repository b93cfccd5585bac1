use terraria_world::tfilereader::TFileReader;

#[test]
fn reads_little_endian_integers() {
    let bytes = vec![
        0x34, 0x12, // i16 0x1234
        0xFE, 0xFF, // i16 -2
        0x78, 0x56, 0x34, 0x12, // i32 0x12345678
        0x00, 0x00, 0x00, 0x80, // i32 i32::MIN
        0x01, 0, 0, 0, 0, 0, 0, 0x80, // i64 i64::MIN + 1
        0xAB,
    ];
    let mut r = TFileReader::new(bytes);
    assert_eq!(r.read_int_16(), 0x1234);
    assert_eq!(r.read_int_16(), -2);
    assert_eq!(r.get_position(), 4);
    assert_eq!(r.read_int_32(), 0x1234_5678);
    assert_eq!(r.read_int_32(), i32::MIN);
    assert_eq!(r.read_int_64(), i64::MIN + 1);
    assert_eq!(r.read_byte(), 0xAB);
    assert_eq!(r.get_position(), 21);
    assert_eq!(r.get_file_len(), 21);
}

#[test]
fn write_int_32_then_read_gives_the_value_back() {
    let mut r = TFileReader::new(vec![9; 10]);
    r.move_to_position(3);
    r.write_int_32(-123_456);
    assert_eq!(r.get_position(), 7);
    assert_eq!(r.get_file(), &vec![9, 9, 9, 0xC0, 0x1D, 0xFE, 0xFF, 9, 9, 9]);
    r.move_to_position(3);
    assert_eq!(r.read_int_32(), -123_456);
}

#[test]
fn write_byte_inserts_at_the_position() {
    let mut r = TFileReader::new(vec![1, 2, 3]);
    r.move_to_position(1);
    r.write_byte(7);
    assert_eq!(r.get_file(), &vec![1, 7, 2, 3]);
    assert_eq!(r.get_position(), 2);
}

#[test]
fn write_byte_at_the_end_appends() {
    let mut r = TFileReader::new(vec![1, 2]);
    r.move_to_position(1);
    r.read_byte();
    r.write_byte(5);
    assert_eq!(r.get_file(), &vec![1, 2, 5]);
    assert_eq!(r.get_position(), 3);
}

#[test]
fn read_multiple_bytes_copies_and_moves() {
    let mut r = TFileReader::new(vec![10, 11, 12, 13, 14]);
    r.move_to_position(1);
    let mut out = [0u8; 3];
    r.read_multiple_bytes(&mut out);
    assert_eq!(out, [11, 12, 13]);
    assert_eq!(r.get_position(), 4);
}

#[test]
fn replace_bytes_writes_before_the_position() {
    let mut r = TFileReader::new(vec![1, 2, 3, 4, 5]);
    r.move_to_position(4);
    r.replace_bytes(&[8, 9]);
    assert_eq!(r.get_file(), &vec![1, 2, 8, 9, 5]);
    assert_eq!(r.get_position(), 4);
    r.replace_byte(0);
    assert_eq!(r.get_file(), &vec![1, 2, 8, 0, 5]);
}

#[test]
fn read_string_reads_a_length_prefixed_string() {
    let mut bytes = vec![0xFF, 6];
    bytes.extend_from_slice("Wörld".as_bytes());
    bytes.push(0xEE);
    let mut r = TFileReader::new(bytes);
    r.move_to_position(1);
    assert_eq!(r.read_string(), "Wörld");
    assert_eq!(r.get_position(), 8);
}

#[test]
fn write_string_unknown_len_replaces_the_string() {
    let mut r = TFileReader::new(vec![0xFF, 3, b'a', b'b', b'c', 0xEE]);
    r.move_to_position(1);
    r.write_string_unknown_len(b"hello");
    assert_eq!(r.get_file(), &vec![0xFF, 5, b'h', b'e', b'l', b'l', b'o', 0xEE]);
    assert_eq!(r.get_position(), 7);
    r.move_to_position(1);
    assert_eq!(r.read_string(), "hello");
}

#[test]
fn write_string_known_len_replaces_the_string_body() {
    let mut r = TFileReader::new(vec![0xFF, 3, b'a', b'b', b'c', 0xEE]);
    r.move_to_position(2);
    r.write_string_known_len(b"z", 3);
    assert_eq!(r.get_file(), &vec![0xFF, 1, b'z', 0xEE]);
    assert_eq!(r.get_position(), 3);
}

#[test]
fn write_string_to_empty() {
    let mut r = TFileReader::new(vec![2, b'a', b'b']);
    r.write_string_unknown_len(b"");
    assert_eq!(r.get_file(), &vec![0]);
    assert_eq!(r.get_position(), 1);
}
