use armake::error::Error;
use armake::p3d::{read_faces, skip_tags, Face, Point, Vertex, LOD, P3D};

fn word(n: u32) -> [u8; 4] {
    n.to_le_bytes()
}

fn float(x: f32) -> [u8; 4] {
    x.to_bits().to_le_bytes()
}

fn vertex(point: u32, normal: u32, u: f32, v: f32) -> Vec<u8> {
    let mut out = Vec::new();
    out.extend_from_slice(&word(point));
    out.extend_from_slice(&word(normal));
    out.extend_from_slice(&float(u));
    out.extend_from_slice(&float(v));
    out
}

fn triangle() -> Vec<u8> {
    let mut out = word(3).to_vec();
    for _ in 0..3 {
        out.extend(vertex(0, 0, 0.0, 0.0));
    }
    out.extend(vertex(0xdead, 0xbeef, 9.0, 9.0));
    out.extend_from_slice(&word(0));
    out.extend_from_slice(b"\0\0");
    out
}

fn tag(name: &str, payload: &[u8]) -> Vec<u8> {
    let mut out = vec![1u8];
    out.extend_from_slice(name.as_bytes());
    out.push(0);
    out.extend_from_slice(&word(payload.len() as u32));
    out.extend_from_slice(payload);
    out
}

fn lod(points: &[u8], point_count: u32, normals: &[u8], normal_count: u32, faces: &[u8], face_count: u32, resolution: f32) -> Vec<u8> {
    let mut out = b"P3DM".to_vec();
    out.extend_from_slice(&word(0x1c));
    out.extend_from_slice(&word(0x100));
    out.extend_from_slice(&word(point_count));
    out.extend_from_slice(&word(normal_count));
    out.extend_from_slice(&word(face_count));
    out.extend_from_slice(&[0xaa, 0xbb, 0xcc, 0xdd]);
    out.extend_from_slice(points);
    out.extend_from_slice(normals);
    out.extend_from_slice(faces);
    out.extend_from_slice(b"TAGG");
    out.extend(tag("#EndOfFile#", &[]));
    out.extend_from_slice(&float(resolution));
    out
}

#[test]
fn skip_mode_leaves_stream_behind_the_detail_level() {
    let mut input = lod(&[], 0, &[], 0, &triangle(), 1, 1.0);
    let len = input.len();
    input.extend_from_slice(b"rest");
    let (level, end) = LOD::read(&input, 0, true).unwrap();
    assert_eq!(end, len);
    assert_eq!(level.resolution, 1065353216);
    assert_eq!(f32::from_bits(level.resolution), 1.0);
    assert!(level.points.is_empty());
    assert!(level.face_normals.is_empty());
    assert_eq!(level.faces.len(), 1);
    assert_eq!(level.faces[0].vertices.len(), 3);
    assert_eq!(
        level.faces[0].vertices[2],
        Vertex { point_index: 0, normal_index: 0, uv: (0, 0) }
    );
}

#[test]
fn skip_mode_passes_over_geometry() {
    let points = [7u8; 32];
    let normals = [9u8; 12];
    let input = lod(&points, 2, &normals, 1, &triangle(), 1, 0.5);
    let (level, end) = LOD::read(&input, 0, true).unwrap();
    assert_eq!(end, input.len());
    assert!(level.points.is_empty());
    assert!(level.face_normals.is_empty());
    assert_eq!(level.faces.len(), 1);
    assert_eq!(f32::from_bits(level.resolution), 0.5);
}

#[test]
fn full_mode_reads_geometry() {
    let mut points = Vec::new();
    for x in [1.0f32, 2.0, 3.0] {
        points.extend_from_slice(&float(x));
    }
    points.extend_from_slice(&word(5));
    let mut normals = Vec::new();
    for x in [0.0f32, 1.0, 0.0] {
        normals.extend_from_slice(&float(x));
    }
    let input = lod(&points, 1, &normals, 1, &[], 0, 2.0);
    let (level, end) = LOD::read(&input, 0, false).unwrap();
    assert_eq!(end, input.len());
    assert_eq!(level.version_major, 0x1c);
    assert_eq!(level.version_minor, 0x100);
    assert_eq!(
        level.points,
        vec![Point {
            coords: (1.0f32.to_bits(), 2.0f32.to_bits(), 3.0f32.to_bits()),
            flags: 5
        }]
    );
    assert_eq!(
        level.face_normals,
        vec![(0.0f32.to_bits(), 1.0f32.to_bits(), 0.0f32.to_bits())]
    );
    assert!(level.faces.is_empty());
    assert!(level.sharp_edges.is_empty());
    assert!(level.selections.is_empty());
    assert!(level.properties.is_empty());
}

#[test]
fn triangle_takes_four_vertex_slots() {
    let mut input = triangle();
    let len = input.len();
    assert_eq!(len, 4 + 4 * 16 + 4 + 2);
    input.extend_from_slice(&[1, 2, 3]);
    let (face, end) = Face::read(&input, 0).unwrap();
    assert_eq!(end, len);
    assert_eq!(face.vertices.len(), 3);
}

#[test]
fn quad_keeps_four_vertices() {
    let mut input = word(4).to_vec();
    for i in 0..4 {
        input.extend(vertex(i, i + 10, 0.25, 0.75));
    }
    input.extend_from_slice(&word(0x20));
    input.extend_from_slice(b"tex.paa\0mat.rvmat\0");
    let (face, end) = Face::read(&input, 0).unwrap();
    assert_eq!(end, input.len());
    assert_eq!(face.flags, 0x20);
    assert_eq!(face.texture, "tex.paa");
    assert_eq!(face.material, "mat.rvmat");
    assert_eq!(face.vertices.len(), 4);
    assert_eq!(
        face.vertices[3],
        Vertex { point_index: 3, normal_index: 13, uv: (0.25f32.to_bits(), 0.75f32.to_bits()) }
    );
}

#[test]
fn face_with_other_vertex_count_is_rejected() {
    for count in [0u32, 1, 2, 5, 0xffff_ffff] {
        let mut input = word(count).to_vec();
        input.extend_from_slice(&[0; 100]);
        assert_eq!(Face::read(&input, 0).err(), Some(Error::BadVertexCount));
    }
}

#[test]
fn truncated_face_is_an_eof() {
    let whole = triangle();
    for len in 0..whole.len() {
        assert_eq!(Face::read(&whole[..len], 0).err(), Some(Error::UnexpectedEof));
    }
}

#[test]
fn faces_are_read_one_after_the_other() {
    let mut input = triangle();
    input.extend(triangle());
    let (faces, end) = read_faces(&input, 0, 2).unwrap();
    assert_eq!(faces.len(), 2);
    assert_eq!(end, input.len());
    assert_eq!(read_faces(&input, 0, 3).err(), Some(Error::UnexpectedEof));
}

#[test]
fn tag_scan_stops_behind_the_end_tag() {
    let mut input = tag("#Property#", &[1, 2, 3]);
    input.extend(tag("#EndOfFile#", &[4, 5]));
    let len = input.len();
    input.extend(tag("#EndOfFile#", &[]));
    assert_eq!(skip_tags(&input, 0), Ok(len));
}

#[test]
fn tag_scan_takes_the_payload_of_the_end_tag() {
    let input = tag("#EndOfFile#", &[]);
    assert_eq!(skip_tags(&input, 0), Ok(input.len()));
    let mut short = tag("#EndOfFile#", &[1, 2, 3]);
    short.pop();
    assert_eq!(skip_tags(&short, 0), Err(Error::UnexpectedEof));
}

#[test]
fn tag_scan_without_end_tag_is_an_eof() {
    let input = tag("#Property#", &[1]);
    assert_eq!(skip_tags(&input, 0), Err(Error::UnexpectedEof));
    assert_eq!(skip_tags(&[], 0), Err(Error::UnexpectedEof));
}

#[test]
fn model_reads_every_detail_level() {
    let mut input = b"MLOD".to_vec();
    input.extend_from_slice(&word(257));
    input.extend_from_slice(&word(2));
    input.extend(lod(&[], 0, &[], 0, &triangle(), 1, 1.0));
    input.extend(lod(&[], 0, &[], 0, &[], 0, 4.0));
    for deps_only in [false, true] {
        let model = P3D::read(&input, deps_only).unwrap();
        assert_eq!(model.version, 257);
        assert_eq!(model.lods.len(), 2);
        assert_eq!(model.lods[0].faces.len(), 1);
        assert_eq!(f32::from_bits(model.lods[1].resolution), 4.0);
    }
}

#[test]
fn model_with_wrong_magic_is_rejected() {
    let mut input = b"ODOL".to_vec();
    input.extend_from_slice(&[0; 8]);
    assert_eq!(P3D::read(&input, false).err(), Some(Error::BadMagic));
    assert_eq!(P3D::read(b"MLO", false).err(), Some(Error::UnexpectedEof));
}

#[test]
fn detail_level_with_wrong_magic_is_rejected() {
    let mut input = lod(&[], 0, &[], 0, &[], 0, 1.0);
    input[0] = b'X';
    assert_eq!(LOD::read(&input, 0, false).err(), Some(Error::BadMagic));
}

#[test]
fn detail_level_with_wrong_tag_magic_is_rejected() {
    let mut input = lod(&[], 0, &[], 0, &[], 0, 1.0);
    input[28] = b'X';
    assert_eq!(LOD::read(&input, 0, true).err(), Some(Error::BadMagic));
}

#[test]
fn geometry_behind_the_end_is_an_eof_in_both_modes() {
    let input = lod(&[], 4, &[], 0, &[], 0, 1.0);
    assert_eq!(LOD::read(&input, 0, true).err(), Some(Error::UnexpectedEof));
    assert_eq!(LOD::read(&input, 0, false).err(), Some(Error::UnexpectedEof));
}

#[test]
fn detail_level_reads_at_a_position() {
    let mut input = vec![1u8, 2, 3];
    input.extend(lod(&[], 0, &[], 0, &[], 0, 1.0));
    let (_, end) = LOD::read(&input, 3, false).unwrap();
    assert_eq!(end, input.len());
    assert_eq!(LOD::read(&input, input.len() + 5, false).err(), Some(Error::UnexpectedEof));
}
