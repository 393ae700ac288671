use armake::error::Error;
use armake::pbo::{PBOHeader, EXTENSION_MARKER, PBO};

fn header(name: &str, method: u32, original: u32, reserved: u32, time: u32, size: u32) -> Vec<u8> {
    let mut out = name.as_bytes().to_vec();
    out.push(0);
    for word in [method, original, reserved, time, size] {
        out.extend_from_slice(&word.to_le_bytes());
    }
    out
}

fn sample() -> PBO {
    PBO::new()
        .with_file("a.txt".to_string(), b"hi\n".to_vec())
        .with_file("B.txt".to_string(), Vec::new())
        .with_extension("prefix".to_string(), "mymod".to_string())
}

fn sample_body() -> Vec<u8> {
    let mut body = header("", EXTENSION_MARKER, 0, 0, 0, 0);
    body.extend_from_slice(b"prefix\0mymod\0\0");
    body.extend(header("a.txt", 0, 3, 0, 0, 3));
    body.extend(header("B.txt", 0, 0, 0, 0, 0));
    body.extend(header("", 0, 0, 0, 0, 0));
    body.extend_from_slice(b"hi\n");
    body
}

#[test]
fn encode_writes_exact_bytes() {
    let out = sample().write().unwrap();
    let mut expected = sample_body();
    assert_eq!(expected.len(), 111);
    expected.push(0);
    expected.extend_from_slice(&[
        53, 167, 253, 239, 138, 8, 91, 70, 249, 44, 81, 149, 112, 99, 153, 233, 112, 133, 147, 233,
    ]);
    assert_eq!(out, expected);
}

#[test]
fn encode_orders_headers_without_regard_to_case() {
    let out = sample().write().unwrap();
    let back = PBO::read(&out).unwrap();
    let names: Vec<&str> = back.headers().iter().map(|h| h.filename.as_str()).collect();
    assert_eq!(names, vec!["a.txt", "B.txt"]);
}

#[test]
fn encode_then_decode_gives_payloads_and_metadata_back() {
    let out = sample().write().unwrap();
    let back = PBO::read(&out).unwrap();
    assert_eq!(back.files().len(), 2);
    assert_eq!(back.file(&"a.txt".to_string()), Some(&b"hi\n".to_vec()));
    assert_eq!(back.file(&"B.txt".to_string()), Some(&Vec::new()));
    assert_eq!(back.file(&"b.txt".to_string()), None);
    assert_eq!(
        back.header_extensions(),
        &vec![("prefix".to_string(), "mymod".to_string())]
    );
}

#[test]
fn encode_forces_stored_headers_with_equal_sizes() {
    let out = sample().write().unwrap();
    let back = PBO::read(&out).unwrap();
    let first = &back.headers()[0];
    assert_eq!(
        first,
        &PBOHeader {
            filename: "a.txt".to_string(),
            packing_method: 0,
            original_size: 3,
            reserved: 0,
            timestamp: 0,
            data_size: 3,
        }
    );
}

#[test]
fn empty_archive_encodes_to_marker_end_and_trailer() {
    let out = PBO::new().write().unwrap();
    let mut expected = header("", EXTENSION_MARKER, 0, 0, 0, 0);
    expected.push(0);
    expected.extend(header("", 0, 0, 0, 0, 0));
    assert_eq!(&out[..expected.len()], &expected[..]);
    assert_eq!(out.len(), expected.len() + 21);
    assert_eq!(out[expected.len()], 0);
}

#[test]
fn prefix_pair_is_written_first() {
    let archive = PBO::new()
        .with_extension("author".to_string(), "me".to_string())
        .with_extension("prefix".to_string(), "x".to_string())
        .with_extension("version".to_string(), "2".to_string());
    let out = archive.write().unwrap();
    let block = b"prefix\0x\0author\0me\0version\02\0\0";
    assert_eq!(&out[21..21 + block.len()], &block[..]);
}

#[test]
fn decode_reads_archive_without_metadata_block() {
    let mut input = header("x", 0, 1, 0, 0, 1);
    input.extend(header("", 0, 0, 0, 0, 0));
    input.push(42);
    let archive = PBO::read(&input).unwrap();
    assert!(archive.header_extensions().is_empty());
    assert_eq!(archive.file(&"x".to_string()), Some(&vec![42u8]));
}

#[test]
fn decode_keeps_header_fields() {
    let mut input = header("x", 7, 9, 11, 13, 2);
    input.extend(header("", 0, 0, 0, 0, 0));
    input.extend_from_slice(&[1, 2]);
    let archive = PBO::read(&input).unwrap();
    assert_eq!(
        archive.headers(),
        &vec![PBOHeader {
            filename: "x".to_string(),
            packing_method: 7,
            original_size: 9,
            reserved: 11,
            timestamp: 13,
            data_size: 2,
        }]
    );
}

#[test]
fn decode_accepts_a_corrupt_trailer() {
    let mut out = sample().write().unwrap();
    let last = out.len() - 1;
    out[last] ^= 0xff;
    assert!(PBO::read(&out).is_ok());
}

#[test]
fn decode_rejects_marker_behind_first_position() {
    let mut input = header("x", 0, 0, 0, 0, 0);
    input.extend(header("", EXTENSION_MARKER, 0, 0, 0, 0));
    input.push(0);
    input.extend(header("", 0, 0, 0, 0, 0));
    assert_eq!(PBO::read(&input).err(), Some(Error::MisplacedExtensions));
}

#[test]
fn decode_fails_on_truncated_header_table() {
    let input = header("x", 0, 0, 0, 0, 0);
    assert_eq!(PBO::read(&input).err(), Some(Error::UnexpectedEof));
    assert_eq!(PBO::read(&[]).err(), Some(Error::UnexpectedEof));
}

#[test]
fn decode_fails_on_truncated_payload() {
    let mut input = header("x", 0, 4, 0, 0, 4);
    input.extend(header("", 0, 0, 0, 0, 0));
    input.extend_from_slice(&[1, 2, 3]);
    assert_eq!(PBO::read(&input).err(), Some(Error::UnexpectedEof));
}

#[test]
fn decode_fails_on_unterminated_metadata() {
    let mut input = header("", EXTENSION_MARKER, 0, 0, 0, 0);
    input.extend_from_slice(b"prefix\0mymod\0");
    assert_eq!(PBO::read(&input).err(), Some(Error::UnexpectedEof));
}

#[test]
fn decode_rejects_name_that_is_no_text() {
    let mut input = vec![0xff, 0xfe, 0];
    input.extend_from_slice(&[0; 20]);
    assert_eq!(PBO::read(&input).err(), Some(Error::InvalidText));
}

#[test]
fn later_payload_of_a_repeated_name_stays() {
    let mut input = header("x", 0, 1, 0, 0, 1);
    input.extend(header("x", 0, 1, 0, 0, 1));
    input.extend(header("", 0, 0, 0, 0, 0));
    input.extend_from_slice(&[1, 2]);
    let archive = PBO::read(&input).unwrap();
    assert_eq!(archive.headers().len(), 2);
    assert_eq!(archive.files().len(), 1);
    assert_eq!(archive.file(&"x".to_string()), Some(&vec![2u8]));
}

#[test]
fn with_file_replaces_payload_in_place() {
    let archive = PBO::new()
        .with_file("a".to_string(), vec![1])
        .with_file("b".to_string(), vec![2])
        .with_file("a".to_string(), vec![3]);
    assert_eq!(
        archive.files(),
        &vec![("a".to_string(), vec![3u8]), ("b".to_string(), vec![2u8])]
    );
}
