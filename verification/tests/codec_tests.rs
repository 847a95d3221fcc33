use pg_bart::codec::{
    read_exact, read_f64_bits, read_i32, read_i32_vec, read_u32, write_f64_bits, write_i32,
    write_i32_slice, write_u32,
};

#[test]
fn write_u32_appends_little_endian() {
    let mut buf = vec![9u8];
    write_u32(&mut buf, 0x0102_0304);
    assert_eq!(buf, vec![9, 4, 3, 2, 1]);
}

#[test]
fn write_i32_appends_twos_complement() {
    let mut buf = Vec::new();
    write_i32(&mut buf, -1);
    write_i32(&mut buf, -2);
    assert_eq!(buf, vec![0xff, 0xff, 0xff, 0xff, 0xfe, 0xff, 0xff, 0xff]);
}

#[test]
fn write_f64_bits_matches_to_le_bytes() {
    let mut buf = Vec::new();
    write_f64_bits(&mut buf, 2.5f64.to_bits());
    assert_eq!(buf, 2.5f64.to_le_bytes().to_vec());
}

#[test]
fn write_i32_slice_appends_each_value() {
    let mut buf = Vec::new();
    write_i32_slice(&mut buf, &[1, -1, 256]);
    assert_eq!(buf, vec![1, 0, 0, 0, 0xff, 0xff, 0xff, 0xff, 0, 1, 0, 0]);
}

#[test]
fn read_exact_takes_bytes_and_advances() {
    let bytes = [1u8, 2, 3, 4, 5];
    let mut offset = 1usize;
    let out = read_exact::<3>(&bytes, &mut offset).unwrap();
    assert_eq!(out, [2, 3, 4]);
    assert_eq!(offset, 4);
}

#[test]
fn read_exact_fails_at_end_without_moving() {
    let bytes = [1u8, 2, 3];
    let mut offset = 1usize;
    let err = read_exact::<4>(&bytes, &mut offset).unwrap_err();
    assert_eq!(err, "Unexpected end of buffer while decoding.");
    assert_eq!(offset, 1);
}

#[test]
fn read_u32_and_i32_decode_little_endian() {
    let bytes = [4u8, 3, 2, 1, 0xfe, 0xff, 0xff, 0xff];
    let mut offset = 0usize;
    assert_eq!(read_u32(&bytes, &mut offset).unwrap(), 0x0102_0304);
    assert_eq!(read_i32(&bytes, &mut offset).unwrap(), -2);
    assert_eq!(offset, 8);
    assert!(read_u32(&bytes, &mut offset).is_err());
}

#[test]
fn read_f64_bits_gives_back_the_double() {
    let bytes = (-0.75f64).to_le_bytes();
    let mut offset = 0usize;
    let bits = read_f64_bits(&bytes, &mut offset).unwrap();
    assert_eq!(f64::from_bits(bits), -0.75);
    assert_eq!(offset, 8);
}

#[test]
fn read_i32_vec_reads_a_run() {
    let mut buf = Vec::new();
    write_i32_slice(&mut buf, &[7, -8, 9]);
    let mut offset = 0usize;
    assert_eq!(read_i32_vec(&buf, &mut offset, 3).unwrap(), vec![7, -8, 9]);
    assert_eq!(offset, 12);
}

#[test]
fn read_i32_vec_of_nothing_succeeds_anywhere() {
    let bytes = [1u8];
    let mut offset = 5usize;
    assert_eq!(read_i32_vec(&bytes, &mut offset, 0).unwrap(), Vec::<i32>::new());
    assert_eq!(offset, 5);
}

#[test]
fn read_i32_vec_short_buffer_stops_after_whole_values() {
    let bytes = [1u8, 0, 0, 0, 2, 0, 0, 0, 3, 0];
    let mut offset = 0usize;
    let err = read_i32_vec(&bytes, &mut offset, 3).unwrap_err();
    assert_eq!(err, "Unexpected end of buffer while decoding.");
    assert_eq!(offset, 8);
}
