use kaitai::{BytesReader, KError, Needed};

#[test]
fn basic_read_bytes() {
    let b = vec![1, 2, 3, 4, 5, 6, 7, 8];
    let mut reader = BytesReader::from(b);

    assert_eq!(reader.read_bytes(4).unwrap()[..], [1, 2, 3, 4]);
    assert_eq!(reader.read_bytes(3).unwrap()[..], [5, 6, 7]);
    assert_eq!(
        reader.read_bytes(4).unwrap_err(),
        KError::Incomplete(Needed::Size(3))
    );
    assert_eq!(reader.read_bytes(1).unwrap()[..], [8]);
}

#[test]
fn read_bits_single() {
    let b = vec![0x80];
    let mut reader = BytesReader::from(b);

    assert_eq!(reader.read_bits_int_be(1).unwrap(), 1);
}

#[test]
fn read_bits_multiple() {
    // 0xA0
    let b = vec![0b10100000];
    let mut reader = BytesReader::from(b);

    assert_eq!(reader.read_bits_int_be(1).unwrap(), 1);
    assert_eq!(reader.read_bits_int_be(1).unwrap(), 0);
    assert_eq!(reader.read_bits_int_be(1).unwrap(), 1);
}

#[test]
fn read_bits_large() {
    let b = vec![0b10100000];
    let mut reader = BytesReader::from(b);

    assert_eq!(reader.read_bits_int_be(3).unwrap(), 5);
}

#[test]
fn read_bits_span() {
    let b = vec![0x01, 0x80];
    let mut reader = BytesReader::from(b);

    assert_eq!(reader.read_bits_int_be(9).unwrap(), 3);
}

#[test]
fn read_bits_too_large() {
    let b: Vec<u8> = vec![1, 2, 3, 4, 5, 6, 7, 8, 9];
    let mut reader = BytesReader::from(b);

    assert_eq!(
        reader.read_bits_int_be(65).unwrap_err(),
        KError::ReadBitsTooLarge { requested: 65 }
    )
}

#[test]
fn read_bytes_term() {
    let b = vec![1, 2, 3, 4, 5, 6, 7, 8, 9, 10];
    let mut reader = BytesReader::from(b);

    assert_eq!(
        reader.read_bytes_term(3, false, false, false).unwrap()[..],
        [1, 2]
    );
    assert_eq!(
        reader.read_bytes_term(3, true, false, true).unwrap()[..],
        [3]
    );
    assert_eq!(
        reader.read_bytes_term(3, false, true, true).unwrap()[..],
        []
    );
    assert_eq!(
        reader.read_bytes_term(5, true, true, true).unwrap()[..],
        [4, 5]
    );
    assert_eq!(
        reader.read_bytes_term(8, false, false, true).unwrap()[..],
        [6, 7]
    );
    assert_eq!(
        reader.read_bytes_term(11, false, true, true).unwrap_err(),
        KError::EncounteredEOF
    );
    // restore position
    reader.seek(7).unwrap();
    assert_eq!(
        reader.read_bytes_term(9, true, true, false).unwrap()[..],
        [8, 9]
    );
    assert_eq!(
        reader.read_bytes_term(10, true, false, false).unwrap()[..],
        [10]
    );
}

#[test]
fn basic_seek() {
    let b = vec![1, 2, 3, 4, 5, 6, 7, 8];
    let mut reader = BytesReader::from(b);

    assert_eq!(reader.read_bytes(4).unwrap()[..], [1, 2, 3, 4]);
    let pos = reader.pos();
    reader.seek(1).unwrap();
    assert_eq!(reader.read_bytes(4).unwrap()[..], [2, 3, 4, 5]);
    reader.seek(pos).unwrap();
    assert_eq!(reader.read_bytes(4).unwrap()[..], [5, 6, 7, 8]);
    assert_eq!(
        reader.seek(9).unwrap_err(),
        KError::Incomplete(Needed::Size(1))
    );
}

#[test]
fn read_bytes_moves_pos_only_on_success() {
    let b = vec![9, 8, 7];
    let mut reader = BytesReader::from(b);

    assert_eq!(reader.pos(), 0);
    assert!(reader.read_bytes(2).is_ok());
    assert_eq!(reader.pos(), 2);
    assert!(reader.read_bytes(2).is_err());
    assert_eq!(reader.pos(), 2);
    assert!(reader.read_bytes(1).is_ok());
    assert_eq!(reader.pos(), 3);
}

#[test]
fn seek_failure_keeps_pos() {
    let b = vec![1, 2, 3];
    let mut reader = BytesReader::from(b);

    reader.seek(2).unwrap();
    assert_eq!(reader.pos(), 2);
    assert!(reader.seek(4).is_err());
    assert_eq!(reader.pos(), 2);
    reader.seek(3).unwrap();
    assert_eq!(reader.pos(), 3);
}

#[test]
fn eof_after_align() {
    let b = vec![0xFF];
    let mut reader = BytesReader::from(b);

    assert!(!reader.is_eof());
    assert_eq!(reader.read_bits_int_be(3).unwrap(), 7);
    // residual bits keep the reader away from end of stream
    assert!(!reader.is_eof());
    reader.align_to_byte().unwrap();
    assert!(reader.is_eof());
}

#[test]
fn read_bits_le_basic() {
    // low bits first: 0b1010_0101 yields 1, 0, 1 then 0b10100
    let b = vec![0b1010_0101];
    let mut reader = BytesReader::from(b);

    assert_eq!(reader.read_bits_int_le(1).unwrap(), 1);
    assert_eq!(reader.read_bits_int_le(1).unwrap(), 0);
    assert_eq!(reader.read_bits_int_le(1).unwrap(), 1);
    assert_eq!(reader.read_bits_int_le(5).unwrap(), 0b10100);
}

#[test]
fn read_bits_le_span() {
    // 9 bits across two bytes, low byte first
    let b = vec![0x01, 0x80];
    let mut reader = BytesReader::from(b);

    assert_eq!(reader.read_bits_int_le(9).unwrap(), 1);
    assert_eq!(reader.read_bits_int_le(7).unwrap(), 0x40);
}

#[test]
fn split_bit_reads_concatenate() {
    // one 6-bit read equals a 2-bit and a 4-bit read, in both bit orders
    let b = vec![0b1101_0110];
    let mut one = BytesReader::from(b.clone());
    let mut two = BytesReader::from(b.clone());
    let whole = one.read_bits_int_be(6).unwrap();
    let hi = two.read_bits_int_be(2).unwrap();
    let lo = two.read_bits_int_be(4).unwrap();
    assert_eq!(whole, (hi << 4) | lo);

    let mut one_le = BytesReader::from(b.clone());
    let mut two_le = BytesReader::from(b);
    let whole_le = one_le.read_bits_int_le(6).unwrap();
    let first = two_le.read_bits_int_le(2).unwrap();
    let second = two_le.read_bits_int_le(4).unwrap();
    assert_eq!(whole_le, first | (second << 2));
}

#[test]
fn numeric_reads() {
    let b = vec![0x01, 0x02, 0xFF, 0xFE, 0x80, 0x00, 0x00, 0x2A];
    let mut reader = BytesReader::from(b);

    assert_eq!(reader.read_u2be().unwrap(), 0x0102);
    assert_eq!(reader.read_s2le().unwrap(), -257); // 0xFEFF
    assert_eq!(reader.read_s1().unwrap(), -128);
    assert_eq!(reader.read_u1().unwrap(), 0);
    assert_eq!(reader.read_u2le().unwrap(), 0x2A00);
    assert!(reader.read_u1().is_err());
}

#[test]
fn numeric_reads_wide() {
    let b = vec![0x01, 0x02, 0x03, 0x04, 0x05, 0x06, 0x07, 0x08];
    let mut reader = BytesReader::from(b.clone());
    assert_eq!(reader.read_u8be().unwrap(), 0x0102030405060708);

    let mut reader = BytesReader::from(b.clone());
    assert_eq!(reader.read_u8le().unwrap(), 0x0807060504030201);

    let mut reader = BytesReader::from(b.clone());
    assert_eq!(reader.read_u4be().unwrap(), 0x01020304);
    assert_eq!(reader.read_u4le().unwrap(), 0x08070605);

    let mut reader = BytesReader::from(vec![0xFF, 0xFF, 0xFF, 0xFF]);
    assert_eq!(reader.read_s4be().unwrap(), -1);

    let mut reader = BytesReader::from(vec![0x80, 0, 0, 0, 0, 0, 0, 0]);
    assert_eq!(reader.read_s8be().unwrap(), i64::MIN);
}

#[test]
fn read_bytes_full_drains() {
    let b = vec![1, 2, 3, 4];
    let mut reader = BytesReader::from(b);

    assert_eq!(reader.read_bytes(1).unwrap()[..], [1]);
    assert_eq!(reader.read_bytes_full().unwrap()[..], [2, 3, 4]);
    assert!(reader.is_eof());
    assert_eq!(reader.read_bytes_full().unwrap()[..], []);
}

#[test]
fn clone_shares_bytes_with_fresh_cursor() {
    let b = vec![1, 2, 3];
    let mut reader = BytesReader::from(b);
    assert_eq!(reader.read_bytes(2).unwrap()[..], [1, 2]);

    let mut second = reader.clone();
    assert_eq!(second.pos(), 0);
    assert_eq!(second.size(), 3);
    assert_eq!(second.read_bytes(3).unwrap()[..], [1, 2, 3]);
    assert_eq!(reader.pos(), 2);
}
