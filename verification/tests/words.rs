use armake::error::Error;
use armake::wire::{read_bytes, read_cstring, read_u32, skip, write_bytes, write_cstring, write_u32};

#[test]
fn word_is_read_in_little_endian_order() {
    let input = [0x78, 0x56, 0x34, 0x12, 0xff];
    assert_eq!(read_u32(&input, 0), Ok((0x1234_5678, 4)));
    assert_eq!(read_u32(&input, 1), Ok((0xff12_3456, 5)));
    assert_eq!(read_u32(&input, 2), Err(Error::UnexpectedEof));
    assert_eq!(read_u32(&input, 9), Err(Error::UnexpectedEof));
}

#[test]
fn word_is_written_in_little_endian_order() {
    let mut out = vec![9u8];
    write_u32(&mut out, 0x1234_5678);
    assert_eq!(out, vec![9, 0x78, 0x56, 0x34, 0x12]);
    write_u32(&mut out, 1_000_000);
    assert_eq!(read_u32(&out, 5), Ok((1_000_000, 9)));
}

#[test]
fn string_is_read_up_to_and_with_its_terminator() {
    let input = b"abc\0def";
    assert_eq!(read_cstring(input, 0), Ok(("abc".to_string(), 4)));
    assert_eq!(read_cstring(input, 3), Ok((String::new(), 4)));
    assert_eq!(read_cstring(input, 4), Err(Error::UnexpectedEof));
    assert_eq!(read_cstring(input, 100), Err(Error::UnexpectedEof));
}

#[test]
fn string_is_decoded_as_utf8() {
    let input = "gr\u{fc}n\0".as_bytes();
    assert_eq!(read_cstring(input, 0), Ok(("gr\u{fc}n".to_string(), 6)));
    assert_eq!(read_cstring(&[0xc3, 0], 0), Err(Error::InvalidText));
}

#[test]
fn string_is_written_with_its_terminator() {
    let mut out = Vec::new();
    write_cstring(&mut out, "gr\u{fc}n");
    assert_eq!(out, vec![b'g', b'r', 0xc3, 0xbc, b'n', 0]);
    write_bytes(&mut out, &[1, 2]);
    assert_eq!(out.len(), 8);
}

#[test]
fn bytes_are_read_and_passed_over() {
    let input = [1u8, 2, 3, 4];
    assert_eq!(read_bytes(&input, 1, 2), Ok((vec![2, 3], 3)));
    assert_eq!(read_bytes(&input, 4, 0), Ok((vec![], 4)));
    assert_eq!(read_bytes(&input, 3, 2), Err(Error::UnexpectedEof));
    assert_eq!(skip(&input, 1, 3), Ok(4));
    assert_eq!(skip(&input, 1, 4), Err(Error::UnexpectedEof));
    assert_eq!(skip(&input, 7, 0), Ok(7));
}
