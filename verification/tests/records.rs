use armake::assoc::position;
use armake::error::Error;
use armake::p3d::{
    read_geometry, read_lod_end, read_lod_header, read_lods, read_magic, read_normal, read_tag,
    LodHeader, Point, Vertex,
};
use armake::pbo::{
    collect_pairs, file_names, put_file, put_pair, read_extensions, read_files, read_headers,
    read_pairs, sizes_fit, write_extensions, write_header, write_header_table, write_payloads,
    PBOHeader, EXTENSION_MARKER,
};

fn pair(key: &str, value: &str) -> (String, String) {
    (key.to_string(), value.to_string())
}

fn words(list: &[u32]) -> Vec<u8> {
    let mut out = Vec::new();
    for word in list {
        out.extend_from_slice(&word.to_le_bytes());
    }
    out
}

fn stored(name: &str, size: u32) -> PBOHeader {
    PBOHeader {
        filename: name.to_string(),
        packing_method: 0,
        original_size: size,
        reserved: 0,
        timestamp: 0,
        data_size: size,
    }
}

#[test]
fn header_is_written_and_read_back() {
    let header = PBOHeader {
        filename: "dir\\file.sqf".to_string(),
        packing_method: 0x4370_7273,
        original_size: 100,
        reserved: 7,
        timestamp: 0x5f00_0000,
        data_size: 60,
    };
    let mut out = vec![0xeeu8];
    header.write(&mut out);
    let mut expected = vec![0xeeu8];
    expected.extend_from_slice(b"dir\\file.sqf\0");
    expected.extend(words(&[0x4370_7273, 100, 7, 0x5f00_0000, 60]));
    assert_eq!(out, expected);
    assert_eq!(PBOHeader::read(&out, 1), Ok((header, out.len())));
    assert_eq!(PBOHeader::read(&out[..out.len() - 1], 1), Err(Error::UnexpectedEof));
}

#[test]
fn header_fields_are_written_in_order() {
    let mut out = Vec::new();
    write_header(&mut out, "", EXTENSION_MARKER, 1, 2, 3, 4);
    let mut expected = vec![0u8, 0x73, 0x72, 0x65, 0x56];
    expected.extend(words(&[1, 2, 3, 4]));
    assert_eq!(out, expected);
}

#[test]
fn pairs_are_read_up_to_the_empty_key() {
    let input = b"k\0v\0empty\0\0\0rest";
    assert_eq!(
        read_pairs(input, 0),
        Ok((vec![pair("k", "v"), pair("empty", "")], 12))
    );
    assert_eq!(read_pairs(input, 11), Ok((Vec::new(), 12)));
    assert_eq!(read_pairs(input, 12), Err(Error::UnexpectedEof));
    assert_eq!(read_pairs(b"k\0v\0", 0), Err(Error::UnexpectedEof));
    assert_eq!(read_pairs(b"k\0", 0), Err(Error::UnexpectedEof));
}

#[test]
fn extensions_are_read_only_behind_a_marker() {
    let mut with = vec![0u8];
    with.extend(words(&[EXTENSION_MARKER, 0, 0, 0, 0]));
    with.extend_from_slice(b"prefix\0p\0\0");
    assert_eq!(read_extensions(&with, 0), Ok((vec![pair("prefix", "p")], with.len())));
    let mut without = b"file\0".to_vec();
    without.extend(words(&[0, 0, 0, 0, 0]));
    assert_eq!(read_extensions(&without, 0), Ok((Vec::new(), 0)));
    assert_eq!(read_extensions(&[], 0), Err(Error::UnexpectedEof));
}

#[test]
fn marker_header_may_carry_a_name() {
    let mut input = b"name\0".to_vec();
    input.extend(words(&[EXTENSION_MARKER, 0, 0, 0, 0]));
    input.push(0);
    assert_eq!(read_extensions(&input, 0), Ok((Vec::new(), input.len())));
}

#[test]
fn headers_are_read_up_to_the_empty_name() {
    let mut input = b"a\0".to_vec();
    input.extend(words(&[0, 1, 0, 0, 1]));
    input.extend_from_slice(b"b\0");
    input.extend(words(&[0, 2, 0, 0, 2]));
    input.push(0);
    input.extend(words(&[9, 9, 9, 9, 9]));
    let len = input.len();
    input.extend_from_slice(b"payload");
    assert_eq!(read_headers(&input, 0), Ok((vec![stored("a", 1), stored("b", 2)], len)));
}

#[test]
fn payloads_are_read_in_header_order() {
    let headers = vec![stored("a", 1), stored("b", 2), stored("a", 0)];
    let input = [9u8, 1, 2, 2, 5];
    assert_eq!(
        read_files(&input, 1, &headers),
        Ok(vec![("a".to_string(), vec![]), ("b".to_string(), vec![2, 2])])
    );
    assert_eq!(read_files(&input, 3, &headers), Err(Error::UnexpectedEof));
    assert_eq!(read_files(&input, 9, &Vec::new()), Ok(Vec::new()));
}

#[test]
fn put_keeps_the_place_of_a_key() {
    let mut pairs = vec![pair("a", "1"), pair("b", "2")];
    put_pair(&mut pairs, "a".to_string(), "3".to_string());
    put_pair(&mut pairs, "c".to_string(), "4".to_string());
    assert_eq!(pairs, vec![pair("a", "3"), pair("b", "2"), pair("c", "4")]);
    let mut files = vec![("x".to_string(), vec![1u8])];
    put_file(&mut files, "y".to_string(), vec![2]);
    put_file(&mut files, "x".to_string(), vec![3]);
    assert_eq!(files, vec![("x".to_string(), vec![3u8]), ("y".to_string(), vec![2u8])]);
    assert_eq!(position(&files, &"y".to_string()), Some(1));
    assert_eq!(position(&files, &"Y".to_string()), None);
}

#[test]
fn later_value_of_a_repeated_key_stays() {
    let pairs = vec![pair("a", "1"), pair("b", "2"), pair("a", "3")];
    assert_eq!(collect_pairs(&pairs), vec![pair("a", "3"), pair("b", "2")]);
}

#[test]
fn extension_block_ends_with_an_empty_key() {
    let mut out = Vec::new();
    write_extensions(&mut out, &Vec::new());
    assert_eq!(out, vec![0u8]);
    let mut out = Vec::new();
    write_extensions(&mut out, &vec![pair("a", "1"), pair("prefix", "p")]);
    assert_eq!(out, b"prefix\0p\0a\01\0\0".to_vec());
}

#[test]
fn header_table_and_payloads_follow_the_given_order() {
    let files = vec![("b".to_string(), vec![1u8, 2]), ("a".to_string(), vec![3u8])];
    assert!(sizes_fit(&files));
    assert_eq!(file_names(&files), vec!["b".to_string(), "a".to_string()]);
    let mut table = Vec::new();
    write_header_table(&mut table, &files, &vec![1, 0]);
    let mut expected = b"a\0".to_vec();
    expected.extend(words(&[0, 1, 0, 0, 1]));
    expected.extend_from_slice(b"b\0");
    expected.extend(words(&[0, 2, 0, 0, 2]));
    assert_eq!(table, expected);
    let mut payloads = Vec::new();
    write_payloads(&mut payloads, &files, &vec![1, 0]);
    assert_eq!(payloads, vec![3, 1, 2]);
}

#[test]
fn point_vertex_and_normal_are_fixed_size_records() {
    let input = words(&[1, 2, 3, 4, 5]);
    assert_eq!(Point::read(&input, 0), Ok((Point { coords: (1, 2, 3), flags: 4 }, 16)));
    assert_eq!(
        Vertex::read(&input, 4),
        Ok((Vertex { point_index: 2, normal_index: 3, uv: (4, 5) }, 20))
    );
    assert_eq!(read_normal(&input, 8), Ok(((3, 4, 5), 20)));
    assert_eq!(Point::read(&input, 8), Err(Error::UnexpectedEof));
    assert_eq!(Vertex::read(&input, 5), Err(Error::UnexpectedEof));
    assert_eq!(read_normal(&input, 9), Err(Error::UnexpectedEof));
}

#[test]
fn magic_is_compared_byte_by_byte() {
    assert_eq!(read_magic(b"xMLOD", 1, b"MLOD"), Ok(5));
    assert_eq!(read_magic(b"MLOX", 0, b"MLOD"), Err(Error::BadMagic));
    assert_eq!(read_magic(b"XLOD", 0, b"MLOD"), Err(Error::BadMagic));
    assert_eq!(read_magic(b"MLO", 0, b"MLOD"), Err(Error::UnexpectedEof));
}

#[test]
fn lod_header_passes_over_the_reserved_word() {
    let mut input = b"P3DM".to_vec();
    input.extend(words(&[28, 256, 3, 2, 1, 0xdead_beef]));
    assert_eq!(
        read_lod_header(&input, 0),
        Ok((
            LodHeader { version_major: 28, version_minor: 256, points: 3, normals: 2, faces: 1 },
            28
        ))
    );
    assert_eq!(read_lod_header(&input[..27], 0), Err(Error::UnexpectedEof));
}

#[test]
fn geometry_is_read_or_passed_over() {
    let input = words(&[1, 2, 3, 4, 5, 6, 7, 8]);
    assert_eq!(
        read_geometry(&input, 0, 1, 1, false),
        Ok((vec![Point { coords: (1, 2, 3), flags: 4 }], vec![(5, 6, 7)], 28))
    );
    assert_eq!(read_geometry(&input, 0, 1, 1, true), Ok((vec![], vec![], 28)));
    assert_eq!(read_geometry(&input, 4, 0, 2, false), Ok((vec![], vec![(2, 3, 4), (5, 6, 7)], 28)));
    assert_eq!(read_geometry(&input, 0, 2, 0, true), Ok((vec![], vec![], 32)));
    assert_eq!(read_geometry(&input, 0, 2, 1, true), Err(Error::UnexpectedEof));
    assert_eq!(read_geometry(&input, 0, 2, 1, false), Err(Error::UnexpectedEof));
    assert_eq!(
        read_geometry(&input, 0, 0xffff_ffff, 0xffff_ffff, true),
        Err(Error::UnexpectedEof)
    );
}

#[test]
fn tag_is_read_with_its_payload() {
    let mut input = vec![1u8];
    input.extend_from_slice(b"#Mass#\0");
    input.extend(words(&[3]));
    input.extend_from_slice(&[7, 8, 9, 0xff]);
    assert_eq!(read_tag(&input, 0), Ok(("#Mass#".to_string(), input.len() - 1)));
    assert_eq!(read_tag(&input[..input.len() - 2], 0), Err(Error::UnexpectedEof));
    assert_eq!(read_tag(&[], 0), Err(Error::UnexpectedEof));
}

#[test]
fn lod_end_is_tag_block_and_resolution() {
    let mut input = b"TAGG\0#EndOfFile#\0".to_vec();
    input.extend(words(&[0, 0x4000_0000]));
    assert_eq!(read_lod_end(&input, 0), Ok((0x4000_0000, input.len())));
    assert_eq!(read_lod_end(&input[..input.len() - 1], 0), Err(Error::UnexpectedEof));
}

#[test]
fn no_detail_level_is_read_for_a_count_of_zero() {
    let (lods, end) = read_lods(b"junk", 2, 0, false).unwrap();
    assert!(lods.is_empty());
    assert_eq!(end, 2);
    assert_eq!(read_lods(b"junk", 0, 1, false).err(), Some(Error::BadMagic));
}
