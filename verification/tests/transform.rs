use std::io::Write;

use kaitai::BytesReader;

#[test]
fn basic_strip_right() {
    let b = vec![1, 2, 3, 4, 5, 5, 5, 5];
    let c = BytesReader::bytes_strip_right(&b, 5);

    assert_eq!([1, 2, 3, 4], c[..]);
}

#[test]
fn process_xor_one_test() {
    let b = vec![0x66];
    let mut reader = BytesReader::from(b);
    let res = BytesReader::process_xor_one(&reader.read_bytes(1).unwrap(), 3);
    assert_eq!(0x65, res[0]);
}

#[test]
fn process_xor_many_test() {
    let b = vec![0x66, 0x6F];
    let mut reader = BytesReader::from(b);
    let key: Vec<u8> = vec![3, 3];
    let res = BytesReader::process_xor_many(&reader.read_bytes(2).unwrap(), &key);
    assert_eq!(vec![0x65, 0x6C], res);
}

#[test]
fn process_rotate_left_test() {
    let b = vec![0x09, 0xAC];
    let mut reader = BytesReader::from(b);
    let res = BytesReader::process_rotate_left(&reader.read_bytes(2).unwrap(), 3);
    let expected: Vec<u8> = vec![0x48, 0x65];
    assert_eq!(expected, res);
}

#[test]
fn strip_right_ignores_added_padding() {
    let b = vec![7, 0, 9];
    let mut padded = b.clone();
    padded.extend_from_slice(&[0, 0, 0, 0]);
    assert_eq!(
        BytesReader::bytes_strip_right(&b, 0),
        BytesReader::bytes_strip_right(&padded, 0)
    );
    assert_eq!(BytesReader::bytes_strip_right(&padded, 0), vec![7, 0, 9]);
}

#[test]
fn strip_right_all_padding() {
    let b = vec![5, 5, 5];
    assert_eq!(BytesReader::bytes_strip_right(&b, 5), Vec::<u8>::new());
    assert_eq!(BytesReader::bytes_strip_right(&Vec::new(), 5), Vec::<u8>::new());
}

#[test]
fn terminate_at_first_terminator() {
    let b = vec![10, 20, 0, 30];
    assert_eq!(BytesReader::bytes_terminate(&b, 0, false), vec![10, 20]);
    assert_eq!(BytesReader::bytes_terminate(&b, 0, true), vec![10, 20, 0]);
    // unterminated input is returned whole, terminator flag or not
    assert_eq!(BytesReader::bytes_terminate(&b, 99, true), vec![10, 20, 0, 30]);
    assert_eq!(BytesReader::bytes_terminate(&b, 99, false), vec![10, 20, 0, 30]);
}

#[test]
fn xor_one_round_trip() {
    let b = vec![0x00, 0x55, 0xAA, 0xFF];
    let once = BytesReader::process_xor_one(&b, 0x5C);
    let twice = BytesReader::process_xor_one(&once, 0x5C);
    assert_eq!(b, twice);
}

#[test]
fn xor_many_round_trip() {
    let b = vec![1, 2, 3, 4, 5, 6, 7];
    let key: Vec<u8> = vec![0x10, 0x20, 0x30];
    let once = BytesReader::process_xor_many(&b, &key);
    let twice = BytesReader::process_xor_many(&once, &key);
    assert_eq!(b, twice);
}

#[test]
fn rotate_left_zero_is_identity() {
    let b = vec![0x09, 0xAC, 0x00, 0xFF];
    assert_eq!(BytesReader::process_rotate_left(&b, 0), b);
}

#[test]
fn rotate_left_round_trip() {
    let b = vec![0x09, 0xAC, 0x5A, 0x81];
    for a in 1..8u8 {
        let once = BytesReader::process_rotate_left(&b, a);
        let back = BytesReader::process_rotate_left(&once, 8 - a);
        assert_eq!(b, back);
    }
}

#[test]
fn process_zlib_inflates() {
    let plain = b"a zlib stream that is long enough to be worth compressing: aaaaaa";
    let mut enc =
        flate2::write::ZlibEncoder::new(Vec::new(), flate2::Compression::default());
    enc.write_all(plain).unwrap();
    let compressed = enc.finish().unwrap();
    assert_ne!(compressed, plain.to_vec());

    let inflated = BytesReader::process_zlib(&compressed);
    assert_eq!(inflated, plain.to_vec());
}
