//! The MLOD model container: a model header followed by detail levels, each
//! with its geometry arrays, its face records and a self-terminating tag list.
//!
//! Floating-point fields (coordinates, texture coordinates, the resolution)
//! are held as the 32-bit patterns that the container stores, so that decoding
//! loses nothing; a caller turns them into floats with `f32::from_bits`.

use crate::error::Error;
use crate::wire::{
    after, lemma_after_after, lemma_after_nothing, lemma_parse_text_len, lemma_rest_skip,
    parse_text, parse_u32, read_cstring, read_u32, rest, skip, within, word_at,
};
use linked_hash_map::LinkedHashMap;
use std::collections::HashMap;
use vstd::prelude::*;
use vstd::string::StringExecFns;

verus! {

/// `linked_hash_map::LinkedHashMap`: a hash map that keeps the order in which
/// its keys were inserted. Nothing is known of a value of it but what the
/// functions below state.
#[verifier::external_type_specification]
#[verifier::external_body]
#[verifier::reject_recursive_types(K)]
#[verifier::reject_recursive_types(V)]
#[verifier::reject_recursive_types(S)]
pub struct ExLinkedHashMap<K, V, S>(LinkedHashMap<K, V, S>);

/// A position in space with its flags word.
#[derive(Clone, Copy, Debug, PartialEq, Eq)]
pub struct Point {
    /// The x, y and z coordinates, as IEEE 754 bit patterns.
    pub coords: (u32, u32, u32),
    pub flags: u32,
}

/// A corner of a face.
#[derive(Clone, Copy, Debug, PartialEq, Eq)]
pub struct Vertex {
    /// Index into the detail level's point array.
    pub point_index: u32,
    /// Index into the detail level's face-normal array.
    pub normal_index: u32,
    /// The texture coordinate, as IEEE 754 bit patterns.
    pub uv: (u32, u32),
}

/// A triangle or a quad with its texture and material paths.
#[derive(Clone, Debug, PartialEq, Eq)]
pub struct Face {
    pub vertices: Vec<Vertex>,
    pub flags: u32,
    pub texture: String,
    pub material: String,
}

/// A named selection of points and faces, each with a weight held as an IEEE
/// 754 bit pattern.
pub struct Selection {
    pub points: HashMap<Point, u32>,
    pub faces: HashMap<Face, u32>,
}

/// One detail level of a model.
pub struct LOD {
    pub version_major: u32,
    pub version_minor: u32,
    /// The resolution, as an IEEE 754 bit pattern.
    pub resolution: u32,
    pub points: Vec<Point>,
    /// The face normals, as IEEE 754 bit patterns.
    pub face_normals: Vec<(u32, u32, u32)>,
    pub faces: Vec<Face>,
    pub sharp_edges: Vec<(u32, u32)>,
    pub selections: LinkedHashMap<String, Selection>,
    pub properties: LinkedHashMap<String, String>,
}

/// A model: its version and its detail levels in file order.
pub struct P3D {
    pub version: u32,
    pub lods: Vec<LOD>,
}

/// The mathematical value of a face.
pub struct FaceView {
    pub vertices: Seq<Vertex>,
    pub flags: u32,
    pub texture: Seq<char>,
    pub material: Seq<char>,
}

/// The mathematical value of a detail level.
pub struct LodView {
    pub version_major: u32,
    pub version_minor: u32,
    pub resolution: u32,
    pub points: Seq<Point>,
    pub face_normals: Seq<(u32, u32, u32)>,
    pub faces: Seq<FaceView>,
    pub sharp_edges: Seq<(u32, u32)>,
    /// The names of the selections, in insertion order.
    pub selections: Seq<Seq<char>>,
    /// The named properties, in insertion order.
    pub properties: Seq<(Seq<char>, Seq<char>)>,
}

/// The mathematical value of a model.
pub struct ModelView {
    pub version: u32,
    pub lods: Seq<LodView>,
}

/// The names under which a selection map holds its selections, in insertion
/// order.
pub uninterp spec fn selection_names(m: LinkedHashMap<String, Selection>) -> Seq<Seq<char>>;

/// The key and value of each entry of a property map, in insertion order.
pub uninterp spec fn property_entries(m: LinkedHashMap<String, String>) -> Seq<
    (Seq<char>, Seq<char>),
>;

impl View for Face {
    type V = FaceView;

    open spec fn view(&self) -> FaceView {
        FaceView {
            vertices: self.vertices@,
            flags: self.flags,
            texture: self.texture@,
            material: self.material@,
        }
    }
}

impl View for LOD {
    type V = LodView;

    open spec fn view(&self) -> LodView {
        LodView {
            version_major: self.version_major,
            version_minor: self.version_minor,
            resolution: self.resolution,
            points: self.points@,
            face_normals: self.face_normals@,
            faces: face_views(self.faces@),
            sharp_edges: self.sharp_edges@,
            selections: selection_names(self.selections),
            properties: property_entries(self.properties),
        }
    }
}

impl View for P3D {
    type V = ModelView;

    open spec fn view(&self) -> ModelView {
        ModelView { version: self.version, lods: lod_views(self.lods@) }
    }
}

/// The values of a sequence of faces.
pub open spec fn face_views(faces: Seq<Face>) -> Seq<FaceView> {
    faces.map_values(|f: Face| f@)
}

/// The values of a sequence of detail levels.
pub open spec fn lod_views(lods: Seq<LOD>) -> Seq<LodView> {
    lods.map_values(|l: LOD| l@)
}

/// The magic that opens a model container.
pub open spec fn model_magic() -> Seq<u8> {
    seq![0x4du8, 0x4cu8, 0x4fu8, 0x44u8]
}

/// The magic that opens a detail level.
pub open spec fn lod_magic() -> Seq<u8> {
    seq![0x50u8, 0x33u8, 0x44u8, 0x4du8]
}

/// The magic that opens the tag block of a detail level.
pub open spec fn tag_magic() -> Seq<u8> {
    seq![0x54u8, 0x41u8, 0x47u8, 0x47u8]
}

/// The name of the tag that ends a tag block.
pub open spec fn end_tag() -> Seq<char> {
    "#EndOfFile#"@
}

/// The size in bytes of a point record.
pub const POINT_SIZE: u64 = 16;

/// The size in bytes of a face-normal record.
pub const NORMAL_SIZE: u64 = 12;

/// The size in bytes of a vertex record.
pub const VERTEX_SIZE: u64 = 16;

/// The number of vertex records that every face record holds on disk.
pub const FACE_SLOTS: u64 = 4;

/// The size in bytes of the fixed fields that open a detail level: the magic,
/// two version words, three counts and one reserved word.
pub const LOD_HEADER_SIZE: u64 = 28;

/// The point record that `s` holds at position `at`.
pub open spec fn point_at(s: Seq<u8>, at: int) -> Point {
    Point {
        coords: (word_at(s, at), word_at(s, at + 4), word_at(s, at + 8)),
        flags: word_at(s, at + 12),
    }
}

/// The face-normal record that `s` holds at position `at`.
pub open spec fn normal_at(s: Seq<u8>, at: int) -> (u32, u32, u32) {
    (word_at(s, at), word_at(s, at + 4), word_at(s, at + 8))
}

/// The vertex record that `s` holds at position `at`.
pub open spec fn vertex_at(s: Seq<u8>, at: int) -> Vertex {
    Vertex {
        point_index: word_at(s, at),
        normal_index: word_at(s, at + 4),
        uv: (word_at(s, at + 8), word_at(s, at + 12)),
    }
}

/// Reading a four-byte format tag that must equal `magic`.
pub open spec fn parse_magic(s: Seq<u8>, magic: Seq<u8>) -> Result<nat, Error> {
    if s.len() < 4 {
        Err(Error::UnexpectedEof)
    } else if s.take(4) != magic {
        Err(Error::BadMagic)
    } else {
        Ok(4nat)
    }
}

/// Reading a point record.
pub open spec fn parse_point(s: Seq<u8>) -> Result<(Point, nat), Error> {
    if s.len() >= POINT_SIZE {
        Ok((point_at(s, 0), POINT_SIZE as nat))
    } else {
        Err(Error::UnexpectedEof)
    }
}

/// Reading a face-normal record.
pub open spec fn parse_normal(s: Seq<u8>) -> Result<((u32, u32, u32), nat), Error> {
    if s.len() >= NORMAL_SIZE {
        Ok((normal_at(s, 0), NORMAL_SIZE as nat))
    } else {
        Err(Error::UnexpectedEof)
    }
}

/// Reading a vertex record.
pub open spec fn parse_vertex(s: Seq<u8>) -> Result<(Vertex, nat), Error> {
    if s.len() >= VERTEX_SIZE {
        Ok((vertex_at(s, 0), VERTEX_SIZE as nat))
    } else {
        Err(Error::UnexpectedEof)
    }
}

/// The position in a face record just behind its four vertex slots.
pub open spec fn face_slots_end() -> int {
    4 + FACE_SLOTS * VERTEX_SIZE
}

/// Reading a face record: a vertex count of 3 or 4, four vertex slots of which
/// the first `count` are kept, a flags word, and the texture and material
/// paths.
#[verifier::opaque]
pub open spec fn parse_face(s: Seq<u8>) -> Result<(FaceView, nat), Error> {
    match parse_u32(s) {
        Err(e) => Err(e),
        Ok((count, _)) => if count != 3 && count != 4 {
            Err(Error::BadVertexCount)
        } else if s.len() < face_slots_end() {
            Err(Error::UnexpectedEof)
        } else {
            match parse_u32(s.skip(face_slots_end())) {
                Err(e) => Err(e),
                Ok((flags, _)) => match parse_text(s.skip(face_slots_end() + 4)) {
                    Err(e) => Err(e),
                    Ok((texture, tn)) => match parse_text(s.skip(face_slots_end() + 4 + tn)) {
                        Err(e) => Err(e),
                        Ok((material, mn)) => Ok(
                            (
                                FaceView {
                                    vertices: Seq::new(
                                        count as nat,
                                        |i: int| vertex_at(s, 4 + VERTEX_SIZE * i),
                                    ),
                                    flags,
                                    texture,
                                    material,
                                },
                                (face_slots_end() + 4 + tn + mn) as nat,
                            ),
                        ),
                    },
                },
            }
        },
    }
}

/// Reading `count` face records one after the other.
pub open spec fn parse_faces(s: Seq<u8>, count: nat) -> Result<(Seq<FaceView>, nat), Error>
    decreases count,
{
    if count == 0 {
        Ok((Seq::empty(), 0nat))
    } else {
        match parse_face(s) {
            Err(e) => Err(e),
            Ok((face, n)) => after(seq![face], n, parse_faces(s.skip(n as int), (count - 1) as nat)),
        }
    }
}

/// The outcome of a scan that went on after `used` bytes.
pub open spec fn scanned(used: nat, more: Result<nat, Error>) -> Result<nat, Error> {
    match more {
        Ok(n) => Ok(used + n),
        Err(e) => Err(e),
    }
}

/// Reading one tag: a flag byte, a name, a length and that many bytes of
/// payload. The result is the name.
#[verifier::opaque]
pub open spec fn parse_tag(s: Seq<u8>) -> Result<(Seq<char>, nat), Error> {
    if s.len() < 1 {
        Err(Error::UnexpectedEof)
    } else {
        match parse_text(s.skip(1)) {
            Err(e) => Err(e),
            Ok((name, n)) => match parse_u32(s.skip(1 + n as int)) {
                Err(e) => Err(e),
                Ok((size, _)) => if s.len() < 1 + n + 4 + size {
                    Err(Error::UnexpectedEof)
                } else {
                    Ok((name, (1 + n + 4 + size) as nat))
                },
            },
        }
    }
}

/// A tag takes at least its flag byte, the terminator of its name and its
/// length, and no more than there is.
pub proof fn lemma_parse_tag_len(s: Seq<u8>)
    ensures
        parse_tag(s) matches Ok((_, n)) ==> 6 <= n <= s.len(),
{
    reveal(parse_tag);
    if s.len() >= 1 {
        lemma_parse_text_len(s.skip(1));
    }
}

/// Scanning a tag list: the scan ends behind the payload of the first tag
/// whose name is the end tag. The result is the number of bytes scanned.
pub open spec fn scan_tags(s: Seq<u8>) -> Result<nat, Error>
    decreases s.len(),
{
    match parse_tag(s) {
        Err(e) => Err(e),
        Ok((name, used)) => if name == end_tag() {
            Ok(used)
        } else {
            proof {
                lemma_parse_tag_len(s);
            }
            scanned(used, scan_tags(s.skip(used as int)))
        },
    }
}

/// The number of bytes that the point and face-normal arrays of a detail
/// level take.
pub open spec fn geometry_span(points: u32, normals: u32) -> nat {
    (POINT_SIZE * points + NORMAL_SIZE * normals) as nat
}

/// The fixed fields that open a detail level.
#[derive(Clone, Copy, Debug, PartialEq, Eq)]
pub struct LodHeader {
    pub version_major: u32,
    pub version_minor: u32,
    /// The number of point records.
    pub points: u32,
    /// The number of face-normal records.
    pub normals: u32,
    /// The number of face records.
    pub faces: u32,
}

/// Reading the fixed fields of a detail level: the magic, two version words,
/// three counts, and one reserved word that is passed over.
#[verifier::opaque]
pub open spec fn parse_lod_header(s: Seq<u8>) -> Result<(LodHeader, nat), Error> {
    match parse_magic(s, lod_magic()) {
        Err(e) => Err(e),
        Ok(_) => if s.len() < LOD_HEADER_SIZE {
            Err(Error::UnexpectedEof)
        } else {
            Ok(
                (
                    LodHeader {
                        version_major: word_at(s, 4),
                        version_minor: word_at(s, 8),
                        points: word_at(s, 12),
                        normals: word_at(s, 16),
                        faces: word_at(s, 20),
                    },
                    LOD_HEADER_SIZE as nat,
                ),
            )
        },
    }
}

/// Reading the point array and the face-normal array of a detail level. With
/// `deps_only` the same bytes are passed over and both arrays stay empty.
#[verifier::opaque]
pub open spec fn parse_geometry(s: Seq<u8>, points: u32, normals: u32, deps_only: bool) -> Result<
    ((Seq<Point>, Seq<(u32, u32, u32)>), nat),
    Error,
> {
    if s.len() < geometry_span(points, normals) {
        Err(Error::UnexpectedEof)
    } else if deps_only {
        Ok(((Seq::empty(), Seq::empty()), geometry_span(points, normals)))
    } else {
        Ok(
            (
                (
                    Seq::new(points as nat, |i: int| point_at(s, POINT_SIZE * i)),
                    Seq::new(
                        normals as nat,
                        |i: int| normal_at(s, POINT_SIZE * points + NORMAL_SIZE * i),
                    ),
                ),
                geometry_span(points, normals),
            ),
        )
    }
}

/// Reading what follows the face records of a detail level: the tag block
/// with its magic, and the resolution. The result is the resolution.
#[verifier::opaque]
pub open spec fn parse_lod_end(s: Seq<u8>) -> Result<(u32, nat), Error> {
    match parse_magic(s, tag_magic()) {
        Err(e) => Err(e),
        Ok(_) => match scan_tags(s.skip(4)) {
            Err(e) => Err(e),
            Ok(tl) => match parse_u32(s.skip(4 + tl as int)) {
                Err(e) => Err(e),
                Ok((resolution, _)) => Ok((resolution, (4 + tl + 4) as nat)),
            },
        },
    }
}

/// Reading a detail level: its fixed fields, its geometry arrays, its face
/// records, its tag block and its resolution. Selections and properties stay
/// empty.
#[verifier::opaque]
pub open spec fn parse_lod(s: Seq<u8>, deps_only: bool) -> Result<(LodView, nat), Error> {
    match parse_lod_header(s) {
        Err(e) => Err(e),
        Ok((header, hn)) => match parse_geometry(
            s.skip(hn as int),
            header.points,
            header.normals,
            deps_only,
        ) {
            Err(e) => Err(e),
            Ok((geometry, gn)) => match parse_faces(s.skip((hn + gn) as int), header.faces as nat) {
                Err(e) => Err(e),
                Ok((faces, fl)) => match parse_lod_end(s.skip((hn + gn + fl) as int)) {
                    Err(e) => Err(e),
                    Ok((resolution, el)) => Ok(
                        (
                            LodView {
                                version_major: header.version_major,
                                version_minor: header.version_minor,
                                resolution,
                                points: geometry.0,
                                face_normals: geometry.1,
                                faces,
                                sharp_edges: Seq::empty(),
                                selections: Seq::empty(),
                                properties: Seq::empty(),
                            },
                            hn + gn + fl + el,
                        ),
                    ),
                },
            },
        },
    }
}

/// Reading `count` detail levels one after the other.
pub open spec fn parse_lods(s: Seq<u8>, count: nat, deps_only: bool) -> Result<
    (Seq<LodView>, nat),
    Error,
>
    decreases count,
{
    if count == 0 {
        Ok((Seq::empty(), 0nat))
    } else {
        match parse_lod(s, deps_only) {
            Err(e) => Err(e),
            Ok((lod, n)) => after(
                seq![lod],
                n,
                parse_lods(s.skip(n as int), (count - 1) as nat, deps_only),
            ),
        }
    }
}

/// Reading a model container: the magic, the version, the number of detail
/// levels, and the detail levels.
pub open spec fn parse_model(s: Seq<u8>, deps_only: bool) -> Result<ModelView, Error> {
    match parse_magic(s, model_magic()) {
        Err(e) => Err(e),
        Ok(_) => if s.len() < 12 {
            Err(Error::UnexpectedEof)
        } else {
            match parse_lods(s.skip(12), word_at(s, 8) as nat, deps_only) {
                Err(e) => Err(e),
                Ok((lods, _)) => Ok(ModelView { version: word_at(s, 4), lods }),
            }
        },
    }
}

/// `linked_hash_map::LinkedHashMap::new`: a selection map that holds nothing.
#[verifier::external_body]
fn no_selections() -> (m: LinkedHashMap<String, Selection>)
    ensures
        selection_names(m) == Seq::<Seq<char>>::empty(),
{
    LinkedHashMap::new()
}

/// `linked_hash_map::LinkedHashMap::new`: a property map that holds nothing.
#[verifier::external_body]
fn no_properties() -> (m: LinkedHashMap<String, String>)
    ensures
        property_entries(m) == Seq::<(Seq<char>, Seq<char>)>::empty(),
{
    LinkedHashMap::new()
}

/// Reads a four-byte format tag at `pos` and checks it against `magic`.
pub fn read_magic(input: &[u8], pos: usize, magic: &[u8; 4]) -> (r: Result<usize, Error>)
    ensures
        match r {
            Ok(end) => within(input@, pos, end) && parse_magic(rest(input@, pos), magic@) == Ok::<
                nat,
                Error,
            >((end - pos) as nat),
            Err(e) => parse_magic(rest(input@, pos), magic@) == Err::<nat, Error>(e),
        },
{
    if pos > input.len() || input.len() - pos < 4 {
        return Err(Error::UnexpectedEof);
    }
    let ghost tag = rest(input@, pos).take(4);
    assert(tag[0] == input@[pos as int] && tag[1] == input@[pos + 1] && tag[2] == input@[pos + 2]
        && tag[3] == input@[pos + 3]);
    if input[pos] != magic[0] || input[pos + 1] != magic[1] || input[pos + 2] != magic[2]
        || input[pos + 3] != magic[3] {
        return Err(Error::BadMagic);
    }
    assert(tag =~= magic@);
    Ok(pos + 4)
}

impl Point {
    /// Reads a point record at `pos`.
    pub fn read(input: &[u8], pos: usize) -> (r: Result<(Point, usize), Error>)
        ensures
            match r {
                Ok((v, end)) => within(input@, pos, end) && parse_point(rest(input@, pos)) == Ok::<
                    (Point, nat),
                    Error,
                >((v, (end - pos) as nat)),
                Err(e) => parse_point(rest(input@, pos)) == Err::<(Point, nat), Error>(e),
            },
    {
        let (x, at1): (u32, usize) = read_u32(input, pos)?;
        proof {
            lemma_rest_skip(input, pos, 4);
        }
        let (y, at2): (u32, usize) = read_u32(input, at1)?;
        proof {
            lemma_rest_skip(input, pos, 8);
        }
        let (z, at3): (u32, usize) = read_u32(input, at2)?;
        proof {
            lemma_rest_skip(input, pos, 12);
        }
        let (flags, at4): (u32, usize) = read_u32(input, at3)?;
        Ok((Point { coords: (x, y, z), flags }, at4))
    }
}

impl Vertex {
    /// Reads a vertex record at `pos`.
    pub fn read(input: &[u8], pos: usize) -> (r: Result<(Vertex, usize), Error>)
        ensures
            match r {
                Ok((v, end)) => within(input@, pos, end) && parse_vertex(rest(input@, pos)) == Ok::<
                    (Vertex, nat),
                    Error,
                >((v, (end - pos) as nat)),
                Err(e) => parse_vertex(rest(input@, pos)) == Err::<(Vertex, nat), Error>(e),
            },
    {
        let (point_index, at1): (u32, usize) = read_u32(input, pos)?;
        proof {
            lemma_rest_skip(input, pos, 4);
        }
        let (normal_index, at2): (u32, usize) = read_u32(input, at1)?;
        proof {
            lemma_rest_skip(input, pos, 8);
        }
        let (u, at3): (u32, usize) = read_u32(input, at2)?;
        proof {
            lemma_rest_skip(input, pos, 12);
        }
        let (v, at4): (u32, usize) = read_u32(input, at3)?;
        Ok((Vertex { point_index, normal_index, uv: (u, v) }, at4))
    }
}

/// Reads a face-normal record at `pos`.
pub fn read_normal(input: &[u8], pos: usize) -> (r: Result<((u32, u32, u32), usize), Error>)
    ensures
        match r {
            Ok((v, end)) => within(input@, pos, end) && parse_normal(rest(input@, pos)) == Ok::<
                ((u32, u32, u32), nat),
                Error,
            >((v, (end - pos) as nat)),
            Err(e) => parse_normal(rest(input@, pos)) == Err::<((u32, u32, u32), nat), Error>(e),
        },
{
    let (x, at1): (u32, usize) = read_u32(input, pos)?;
    proof {
        lemma_rest_skip(input, pos, 4);
    }
    let (y, at2): (u32, usize) = read_u32(input, at1)?;
    proof {
        lemma_rest_skip(input, pos, 8);
    }
    let (z, at3): (u32, usize) = read_u32(input, at2)?;
    Ok(((x, y, z), at3))
}

impl Face {
    /// Reads a face record at `pos`. A triangle leaves its fourth vertex slot
    /// unused, and the slot is passed over.
    pub fn read(input: &[u8], pos: usize) -> (r: Result<(Face, usize), Error>)
        ensures
            match r {
                Ok((v, end)) => within(input@, pos, end) && parse_face(rest(input@, pos)) == Ok::<
                    (FaceView, nat),
                    Error,
                >((v@, (end - pos) as nat)),
                Err(e) => parse_face(rest(input@, pos)) == Err::<(FaceView, nat), Error>(e),
            },
    {
        let ghost s = rest(input@, pos);
        proof {
            reveal(parse_face);
        }
        let (count, first): (u32, usize) = read_u32(input, pos)?;
        if count != 3 && count != 4 {
            return Err(Error::BadVertexCount);
        }
        let mut vertices: Vec<Vertex> = Vec::new();
        let mut at: usize = first;
        let mut i: u32 = 0;
        while i < count
            invariant
                i <= count <= 4,
                s == rest(input@, pos),
                s.len() >= 4,
                pos <= input@.len(),
                at == pos + 4 + VERTEX_SIZE * i,
                at <= input@.len(),
                parse_u32(s) == Ok::<(u32, nat), Error>((count, 4nat)),
                count == 3 || count == 4,
                vertices@ == Seq::new(i as nat, |k: int| vertex_at(s, 4 + VERTEX_SIZE * k)),
            decreases count - i,
        {
            proof {
                reveal(parse_face);
                lemma_rest_skip(input, pos, (at - pos) as nat);
            }
            let (vertex, next): (Vertex, usize) = Vertex::read(input, at)?;
            vertices.push(vertex);
            assert(vertices@ =~= Seq::new(
                (i + 1) as nat,
                |k: int| vertex_at(s, 4 + VERTEX_SIZE * k),
            ));
            at = next;
            i += 1;
        }
        if count == 3 {
            proof {
                lemma_rest_skip(input, pos, (at - pos) as nat);
            }
            let (_, next): (Vertex, usize) = Vertex::read(input, at)?;
            at = next;
        }
        proof {
            lemma_rest_skip(input, pos, (at - pos) as nat);
        }
        let (flags, at1): (u32, usize) = read_u32(input, at)?;
        proof {
            lemma_rest_skip(input, pos, (at1 - pos) as nat);
        }
        let (texture, at2): (String, usize) = read_cstring(input, at1)?;
        proof {
            lemma_rest_skip(input, pos, (at2 - pos) as nat);
        }
        let (material, at3): (String, usize) = read_cstring(input, at2)?;
        Ok((Face { vertices, flags, texture, material }, at3))
    }
}

/// Reads `count` face records at `pos`.
pub fn read_faces(input: &[u8], pos: usize, count: u32) -> (r: Result<(Vec<Face>, usize), Error>)
    ensures
        match r {
            Ok((v, end)) => within(input@, pos, end) && parse_faces(
                rest(input@, pos),
                count as nat,
            ) == Ok::<(Seq<FaceView>, nat), Error>((face_views(v@), (end - pos) as nat)),
            Err(e) => parse_faces(rest(input@, pos), count as nat) == Err::<
                (Seq<FaceView>, nat),
                Error,
            >(e),
        },
{
    let mut faces: Vec<Face> = Vec::new();
    let mut at: usize = pos;
    let mut i: u32 = 0;
    proof {
        lemma_after_nothing(parse_faces(rest(input@, pos), count as nat));
        assert(face_views(faces@) =~= Seq::empty());
    }
    while i < count
        invariant
            i <= count,
            within(input@, pos, at),
            parse_faces(rest(input@, pos), count as nat) == after(
                face_views(faces@),
                (at - pos) as nat,
                parse_faces(rest(input@, at), (count - i) as nat),
            ),
        decreases count - i,
    {
        let ghost done = face_views(faces@);
        let (face, next): (Face, usize) = Face::read(input, at)?;
        proof {
            lemma_rest_skip(input, at, (next - at) as nat);
            lemma_after_after(
                done,
                (at - pos) as nat,
                face@,
                (next - at) as nat,
                parse_faces(rest(input@, next), (count - i - 1) as nat),
            );
            assert(face_views(faces@.push(face)) =~= done.push(face@));
        }
        faces.push(face);
        at = next;
        i += 1;
    }
    assert(face_views(faces@) + Seq::<FaceView>::empty() =~= face_views(faces@));
    Ok((faces, at))
}

/// Reads one tag at `pos` and passes over its payload. The result is the
/// tag's name.
pub fn read_tag(input: &[u8], pos: usize) -> (r: Result<(String, usize), Error>)
    ensures
        match r {
            Ok((v, end)) => within(input@, pos, end) && parse_tag(rest(input@, pos)) == Ok::<
                (Seq<char>, nat),
                Error,
            >((v@, (end - pos) as nat)),
            Err(e) => parse_tag(rest(input@, pos)) == Err::<(Seq<char>, nat), Error>(e),
        },
{
    proof {
        reveal(parse_tag);
    }
    if pos >= input.len() {
        return Err(Error::UnexpectedEof);
    }
    proof {
        lemma_rest_skip(input, pos, 1);
    }
    let (name, at1): (String, usize) = read_cstring(input, pos + 1)?;
    proof {
        lemma_rest_skip(input, pos, (at1 - pos) as nat);
    }
    let (size, at2): (u32, usize) = read_u32(input, at1)?;
    let at3: usize = skip(input, at2, size as u64)?;
    Ok((name, at3))
}

/// Passes over the tag list at `pos`, up to and including the payload of the
/// end tag. No tag is interpreted.
pub fn skip_tags(input: &[u8], pos: usize) -> (r: Result<usize, Error>)
    ensures
        match r {
            Ok(end) => within(input@, pos, end) && scan_tags(rest(input@, pos)) == Ok::<nat, Error>(
                (end - pos) as nat,
            ),
            Err(e) => scan_tags(rest(input@, pos)) == Err::<nat, Error>(e),
        },
{
    let sentinel = String::from_str("#EndOfFile#");
    let mut at: usize = pos;
    loop
        invariant
            within(input@, pos, at),
            sentinel@ == end_tag(),
            scan_tags(rest(input@, pos)) == scanned(
                (at - pos) as nat,
                scan_tags(rest(input@, at)),
            ),
        decreases rest(input@, at).len(),
    {
        let (name, next): (String, usize) = read_tag(input, at)?;
        proof {
            lemma_parse_tag_len(rest(input@, at));
            lemma_rest_skip(input, at, (next - at) as nat);
        }
        if name == sentinel {
            return Ok(next);
        }
        at = next;
    }
}

/// Reads `count` point records at `pos`.
fn read_points(input: &[u8], pos: usize, count: u32) -> (r: Result<(Vec<Point>, usize), Error>)
    requires
        pos <= input@.len(),
    ensures
        match r {
            Ok((v, end)) => end == pos + POINT_SIZE * count && end <= input@.len() && v@
                == Seq::new(count as nat, |k: int| point_at(rest(input@, pos), POINT_SIZE * k)),
            Err(e) => e == Error::UnexpectedEof && input@.len() - pos < POINT_SIZE * count,
        },
{
    let ghost s = rest(input@, pos);
    let mut points: Vec<Point> = Vec::new();
    let mut at: usize = pos;
    let mut i: u32 = 0;
    while i < count
        invariant
            i <= count,
            s == rest(input@, pos),
            pos <= input@.len(),
            at == pos + POINT_SIZE * i,
            at <= input@.len(),
            points@ == Seq::new(i as nat, |k: int| point_at(s, POINT_SIZE * k)),
        decreases count - i,
    {
        proof {
            lemma_rest_skip(input, pos, (at - pos) as nat);
        }
        let (point, next): (Point, usize) = Point::read(input, at)?;
        points.push(point);
        assert(points@ =~= Seq::new((i + 1) as nat, |k: int| point_at(s, POINT_SIZE * k)));
        at = next;
        i += 1;
    }
    Ok((points, at))
}

/// Reads `count` face-normal records at `pos`.
fn read_normals(input: &[u8], pos: usize, count: u32) -> (r: Result<
    (Vec<(u32, u32, u32)>, usize),
    Error,
>)
    requires
        pos <= input@.len(),
    ensures
        match r {
            Ok((v, end)) => end == pos + NORMAL_SIZE * count && end <= input@.len() && v@
                == Seq::new(count as nat, |k: int| normal_at(rest(input@, pos), NORMAL_SIZE * k)),
            Err(e) => e == Error::UnexpectedEof && input@.len() - pos < NORMAL_SIZE * count,
        },
{
    let ghost s = rest(input@, pos);
    let mut normals: Vec<(u32, u32, u32)> = Vec::new();
    let mut at: usize = pos;
    let mut i: u32 = 0;
    while i < count
        invariant
            i <= count,
            s == rest(input@, pos),
            pos <= input@.len(),
            at == pos + NORMAL_SIZE * i,
            at <= input@.len(),
            normals@ == Seq::new(i as nat, |k: int| normal_at(s, NORMAL_SIZE * k)),
        decreases count - i,
    {
        proof {
            lemma_rest_skip(input, pos, (at - pos) as nat);
        }
        let (normal, next): ((u32, u32, u32), usize) = read_normal(input, at)?;
        normals.push(normal);
        assert(normals@ =~= Seq::new((i + 1) as nat, |k: int| normal_at(s, NORMAL_SIZE * k)));
        at = next;
        i += 1;
    }
    Ok((normals, at))
}

/// Reads the fixed fields of a detail level at `pos`.
pub fn read_lod_header(input: &[u8], pos: usize) -> (r: Result<(LodHeader, usize), Error>)
    ensures
        match r {
            Ok((v, end)) => within(input@, pos, end) && parse_lod_header(rest(input@, pos)) == Ok::<
                (LodHeader, nat),
                Error,
            >((v, (end - pos) as nat)),
            Err(e) => parse_lod_header(rest(input@, pos)) == Err::<(LodHeader, nat), Error>(e),
        },
{
    proof {
        reveal(parse_lod_header);
    }
    let magic: [u8; 4] = [0x50u8, 0x33u8, 0x44u8, 0x4du8];
    assert(magic@ =~= lod_magic());
    let at1: usize = read_magic(input, pos, &magic)?;
    proof {
        lemma_rest_skip(input, pos, 4);
    }
    let (version_major, at2): (u32, usize) = read_u32(input, at1)?;
    proof {
        lemma_rest_skip(input, pos, 8);
    }
    let (version_minor, at3): (u32, usize) = read_u32(input, at2)?;
    proof {
        lemma_rest_skip(input, pos, 12);
    }
    let (points, at4): (u32, usize) = read_u32(input, at3)?;
    proof {
        lemma_rest_skip(input, pos, 16);
    }
    let (normals, at5): (u32, usize) = read_u32(input, at4)?;
    proof {
        lemma_rest_skip(input, pos, 20);
    }
    let (faces, at6): (u32, usize) = read_u32(input, at5)?;
    proof {
        lemma_rest_skip(input, pos, 24);
    }
    let at7: usize = skip(input, at6, 4)?;
    Ok((LodHeader { version_major, version_minor, points, normals, faces }, at7))
}

/// Reads the point array and the face-normal array of a detail level at `pos`,
/// or passes over them with `deps_only`.
pub fn read_geometry(
    input: &[u8],
    pos: usize,
    points: u32,
    normals: u32,
    deps_only: bool,
) -> (r: Result<(Vec<Point>, Vec<(u32, u32, u32)>, usize), Error>)
    ensures
        match r {
            Ok((p, n, end)) => within(input@, pos, end) && parse_geometry(
                rest(input@, pos),
                points,
                normals,
                deps_only,
            ) == Ok::<((Seq<Point>, Seq<(u32, u32, u32)>), nat), Error>(
                ((p@, n@), (end - pos) as nat),
            ),
            Err(e) => parse_geometry(rest(input@, pos), points, normals, deps_only) == Err::<
                ((Seq<Point>, Seq<(u32, u32, u32)>), nat),
                Error,
            >(e),
        },
{
    let ghost s = rest(input@, pos);
    proof {
        reveal(parse_geometry);
    }
    let span: u64 = POINT_SIZE * (points as u64) + NORMAL_SIZE * (normals as u64);
    if deps_only {
        let end: usize = skip(input, pos, span)?;
        return Ok((Vec::new(), Vec::new(), end));
    }
    if pos > input.len() {
        if span > 0 {
            return Err(Error::UnexpectedEof);
        }
        let no_points: Vec<Point> = Vec::new();
        let no_normals: Vec<(u32, u32, u32)> = Vec::new();
        assert(no_points@ =~= Seq::new(0nat, |i: int| point_at(s, POINT_SIZE * i)));
        assert(no_normals@ =~= Seq::new(
            0nat,
            |i: int| normal_at(s, POINT_SIZE * points + NORMAL_SIZE * i),
        ));
        return Ok((no_points, no_normals, pos));
    }
    let (point_list, at1): (Vec<Point>, usize) = read_points(input, pos, points)?;
    proof {
        lemma_rest_skip(input, pos, (at1 - pos) as nat);
    }
    let (normal_list, at2): (Vec<(u32, u32, u32)>, usize) = read_normals(input, at1, normals)?;
    assert(normal_list@ =~= Seq::new(
        normals as nat,
        |i: int| normal_at(s, POINT_SIZE * points + NORMAL_SIZE * i),
    ));
    Ok((point_list, normal_list, at2))
}

/// Reads what follows the face records of a detail level at `pos`: passes
/// over the tag block and reads the resolution.
pub fn read_lod_end(input: &[u8], pos: usize) -> (r: Result<(u32, usize), Error>)
    ensures
        match r {
            Ok((v, end)) => within(input@, pos, end) && parse_lod_end(rest(input@, pos)) == Ok::<
                (u32, nat),
                Error,
            >((v, (end - pos) as nat)),
            Err(e) => parse_lod_end(rest(input@, pos)) == Err::<(u32, nat), Error>(e),
        },
{
    proof {
        reveal(parse_lod_end);
    }
    let tags: [u8; 4] = [0x54u8, 0x41u8, 0x47u8, 0x47u8];
    assert(tags@ =~= tag_magic());
    let at1: usize = read_magic(input, pos, &tags)?;
    proof {
        lemma_rest_skip(input, pos, 4);
    }
    let at2: usize = skip_tags(input, at1)?;
    proof {
        lemma_rest_skip(input, pos, (at2 - pos) as nat);
    }
    let (resolution, at3): (u32, usize) = read_u32(input, at2)?;
    Ok((resolution, at3))
}

impl LOD {
    /// Reads a detail level at `pos`. With `deps_only` the point and
    /// face-normal arrays are passed over without being read, and the detail
    /// level holds none. Selections and properties are never filled: the tags
    /// that would hold them are passed over.
    pub fn read(input: &[u8], pos: usize, deps_only: bool) -> (r: Result<(LOD, usize), Error>)
        ensures
            match r {
                Ok((v, end)) => within(input@, pos, end) && parse_lod(rest(input@, pos), deps_only)
                    == Ok::<(LodView, nat), Error>((v@, (end - pos) as nat)),
                Err(e) => parse_lod(rest(input@, pos), deps_only) == Err::<(LodView, nat), Error>(
                    e,
                ),
            },
    {
        proof {
            reveal(parse_lod);
        }
        let (header, at1): (LodHeader, usize) = read_lod_header(input, pos)?;
        proof {
            lemma_rest_skip(input, pos, (at1 - pos) as nat);
        }
        let (points, face_normals, at2): (Vec<Point>, Vec<(u32, u32, u32)>, usize) = read_geometry(
            input,
            at1,
            header.points,
            header.normals,
            deps_only,
        )?;
        proof {
            lemma_rest_skip(input, pos, (at2 - pos) as nat);
        }
        let (faces, at3): (Vec<Face>, usize) = read_faces(input, at2, header.faces)?;
        proof {
            lemma_rest_skip(input, pos, (at3 - pos) as nat);
        }
        let (resolution, at4): (u32, usize) = read_lod_end(input, at3)?;
        let lod = LOD {
            version_major: header.version_major,
            version_minor: header.version_minor,
            resolution,
            points,
            face_normals,
            faces,
            sharp_edges: Vec::new(),
            selections: no_selections(),
            properties: no_properties(),
        };
        Ok((lod, at4))
    }
}

/// Reads `count` detail levels at `pos`.
pub fn read_lods(input: &[u8], pos: usize, count: u32, deps_only: bool) -> (r: Result<
    (Vec<LOD>, usize),
    Error,
>)
    ensures
        match r {
            Ok((v, end)) => within(input@, pos, end) && parse_lods(
                rest(input@, pos),
                count as nat,
                deps_only,
            ) == Ok::<(Seq<LodView>, nat), Error>((lod_views(v@), (end - pos) as nat)),
            Err(e) => parse_lods(rest(input@, pos), count as nat, deps_only) == Err::<
                (Seq<LodView>, nat),
                Error,
            >(e),
        },
{
    let mut lods: Vec<LOD> = Vec::new();
    let mut at: usize = pos;
    let mut i: u32 = 0;
    proof {
        lemma_after_nothing(parse_lods(rest(input@, pos), count as nat, deps_only));
        assert(lod_views(lods@) =~= Seq::empty());
    }
    while i < count
        invariant
            i <= count,
            within(input@, pos, at),
            parse_lods(rest(input@, pos), count as nat, deps_only) == after(
                lod_views(lods@),
                (at - pos) as nat,
                parse_lods(rest(input@, at), (count - i) as nat, deps_only),
            ),
        decreases count - i,
    {
        let ghost done = lod_views(lods@);
        let (lod, next): (LOD, usize) = LOD::read(input, at, deps_only)?;
        proof {
            lemma_rest_skip(input, at, (next - at) as nat);
            lemma_after_after(
                done,
                (at - pos) as nat,
                lod@,
                (next - at) as nat,
                parse_lods(rest(input@, next), (count - i - 1) as nat, deps_only),
            );
            assert(lod_views(lods@.push(lod)) =~= done.push(lod@));
        }
        lods.push(lod);
        at = next;
        i += 1;
    }
    assert(lod_views(lods@) + Seq::<LodView>::empty() =~= lod_views(lods@));
    Ok((lods, at))
}

impl P3D {
    /// Decodes a model container from the start of `input`. With `deps_only`
    /// no detail level holds points or face normals.
    pub fn read(input: &[u8], deps_only: bool) -> (r: Result<P3D, Error>)
        ensures
            match r {
                Ok(v) => parse_model(input@, deps_only) == Ok::<ModelView, Error>(v@),
                Err(e) => parse_model(input@, deps_only) == Err::<ModelView, Error>(e),
            },
    {
        assert(rest(input@, 0) =~= input@);
        let magic: [u8; 4] = [0x4du8, 0x4cu8, 0x4fu8, 0x44u8];
        assert(magic@ =~= model_magic());
        let at1: usize = read_magic(input, 0, &magic)?;
        proof {
            lemma_rest_skip(input, 0, 4);
        }
        let (version, at2): (u32, usize) = read_u32(input, at1)?;
        proof {
            lemma_rest_skip(input, 0, 8);
        }
        let (count, at3): (u32, usize) = read_u32(input, at2)?;
        proof {
            lemma_rest_skip(input, 0, 12);
        }
        let (lods, _): (Vec<LOD>, usize) = read_lods(input, at3, count, deps_only)?;
        Ok(P3D { version, lods })
    }
}

} // verus!
