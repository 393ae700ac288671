//! What holds of the records of a model container.

use crate::error::Error;
use crate::p3d::{
    end_tag, face_slots_end, lemma_parse_tag_len, parse_face, parse_tag, scan_tags, scanned,
    vertex_at, FaceView, Vertex, VERTEX_SIZE,
};
use crate::wire::{
    lemma_le_u32_of_u32_le, lemma_parse_text_bytes, lemma_parse_text_len, lemma_parse_text_local,
    lemma_word_at, parse_text, parse_u32, terminable, text_bytes, u32_le, word_at,
};
use vstd::prelude::*;

verus! {

/// The bytes of a vertex record.
pub open spec fn vertex_bytes(v: Vertex) -> Seq<u8> {
    u32_le(v.point_index) + u32_le(v.normal_index) + u32_le(v.uv.0) + u32_le(v.uv.1)
}

/// What stands in vertex slot `i` of the record of `face`: the vertex of that
/// index, or `pad` in the slot that a triangle leaves unused.
pub open spec fn slot(face: FaceView, pad: Vertex, i: int) -> Vertex {
    if i < face.vertices.len() {
        face.vertices[i]
    } else {
        pad
    }
}

/// The bytes of a face record: the vertex count, four vertex slots, the flags
/// and the two paths.
pub open spec fn face_bytes(face: FaceView, pad: Vertex) -> Seq<u8> {
    face_front(
        face.vertices.len() as u32,
        slot(face, pad, 0),
        slot(face, pad, 1),
        slot(face, pad, 2),
        slot(face, pad, 3),
    ) + face_back(face.flags, face.texture, face.material)
}

/// The back of a face record: the flags and the two paths.
#[verifier::opaque]
pub open spec fn face_back(flags: u32, texture: Seq<char>, material: Seq<char>) -> Seq<u8> {
    u32_le(flags) + text_bytes(texture) + text_bytes(material)
}

/// The flags and the paths of a face record are read where they were written,
/// whatever follows.
pub proof fn lemma_face_back(flags: u32, texture: Seq<char>, material: Seq<char>, tail: Seq<u8>)
    requires
        terminable(texture),
        terminable(material),
    ensures
        parse_u32(face_back(flags, texture, material) + tail) == Ok::<(u32, nat), Error>(
            (flags, 4nat),
        ),
        parse_text((face_back(flags, texture, material) + tail).skip(4)) == Ok::<
            (Seq<char>, nat),
            Error,
        >((texture, text_bytes(texture).len())),
        parse_text(
            (face_back(flags, texture, material) + tail).skip(4 + text_bytes(texture).len() as int),
        ) == Ok::<(Seq<char>, nat), Error>((material, text_bytes(material).len())),
        face_back(flags, texture, material).len() == 4 + text_bytes(texture).len() + text_bytes(
            material,
        ).len(),
{
    reveal(face_back);
    let m = face_back(flags, texture, material) + tail;
    let t = text_bytes(texture);
    let u = text_bytes(material);
    assert(m =~= u32_le(flags) + (t + (u + tail)));
    lemma_le_u32_of_u32_le(flags, t + (u + tail));
    assert(m.skip(4) =~= t + (u + tail));
    lemma_parse_text_bytes(texture, u + tail);
    assert(m.skip(4 + t.len() as int) =~= u + tail);
    lemma_parse_text_bytes(material, tail);
}

/// The vertex whose bytes stand at position `at` is read there.
pub proof fn lemma_vertex_at(s: Seq<u8>, at: int, v: Vertex)
    requires
        0 <= at,
        at + 16 <= s.len(),
        s.subrange(at, at + 16) == vertex_bytes(v),
    ensures
        vertex_at(s, at) == v,
{
    let b = s.subrange(at, at + 16);
    assert(s.subrange(at, at + 4) =~= b.subrange(0, 4));
    assert(s.subrange(at + 4, at + 8) =~= b.subrange(4, 8));
    assert(s.subrange(at + 8, at + 12) =~= b.subrange(8, 12));
    assert(s.subrange(at + 12, at + 16) =~= b.subrange(12, 16));
    assert(b.subrange(0, 4) =~= u32_le(v.point_index));
    assert(b.subrange(4, 8) =~= u32_le(v.normal_index));
    assert(b.subrange(8, 12) =~= u32_le(v.uv.0));
    assert(b.subrange(12, 16) =~= u32_le(v.uv.1));
    lemma_word_at(s, at, v.point_index);
    lemma_word_at(s, at + 4, v.normal_index);
    lemma_word_at(s, at + 8, v.uv.0);
    lemma_word_at(s, at + 12, v.uv.1);
}

/// The front of a face record: the vertex count and the four vertex slots.
#[verifier::opaque]
pub open spec fn face_front(count: u32, v0: Vertex, v1: Vertex, v2: Vertex, v3: Vertex) -> Seq<u8> {
    u32_le(count) + vertex_bytes(v0) + vertex_bytes(v1) + vertex_bytes(v2) + vertex_bytes(v3)
}

/// The count and the four slots of a face record are read where they were
/// written, and what follows them stands behind the fourth slot.
pub proof fn lemma_face_front(
    count: u32,
    v0: Vertex,
    v1: Vertex,
    v2: Vertex,
    v3: Vertex,
    more: Seq<u8>,
)
    ensures
        face_front(count, v0, v1, v2, v3).len() == face_slots_end(),
        word_at(face_front(count, v0, v1, v2, v3) + more, 0) == count,
        vertex_at(face_front(count, v0, v1, v2, v3) + more, 4) == v0,
        vertex_at(face_front(count, v0, v1, v2, v3) + more, 20) == v1,
        vertex_at(face_front(count, v0, v1, v2, v3) + more, 36) == v2,
        vertex_at(face_front(count, v0, v1, v2, v3) + more, 52) == v3,
        (face_front(count, v0, v1, v2, v3) + more).skip(face_slots_end()) == more,
{
    reveal(face_front);
    let s = face_front(count, v0, v1, v2, v3) + more;
    assert(s.subrange(0, 4) =~= u32_le(count));
    lemma_word_at(s, 0, count);
    assert(s.subrange(4, 20) =~= vertex_bytes(v0));
    assert(s.subrange(20, 36) =~= vertex_bytes(v1));
    assert(s.subrange(36, 52) =~= vertex_bytes(v2));
    assert(s.subrange(52, 68) =~= vertex_bytes(v3));
    lemma_vertex_at(s, 4, v0);
    lemma_vertex_at(s, 20, v1);
    lemma_vertex_at(s, 36, v2);
    lemma_vertex_at(s, 52, v3);
    assert(s.skip(face_slots_end()) =~= more);
}

/// A face with three or four vertices reads back from its record as itself:
/// the vertex count, and the indices and texture coordinates of every vertex,
/// are kept. A triangle's unused slot is passed over, whatever it holds.
pub proof fn lemma_face_round_trip(face: FaceView, pad: Vertex, tail: Seq<u8>)
    requires
        face.vertices.len() == 3 || face.vertices.len() == 4,
        terminable(face.texture),
        terminable(face.material),
    ensures
        parse_face(face_bytes(face, pad) + tail) == Ok::<(FaceView, nat), Error>(
            (face, face_bytes(face, pad).len()),
        ),
{
    let count = face.vertices.len() as u32;
    let front = face_front(
        count,
        slot(face, pad, 0),
        slot(face, pad, 1),
        slot(face, pad, 2),
        slot(face, pad, 3),
    );
    let back = face_back(face.flags, face.texture, face.material);
    let more = back + tail;
    let s = face_bytes(face, pad) + tail;
    let tn = text_bytes(face.texture).len() as int;
    assert(s == front + more) by {
        assert(s =~= front + more);
    }
    lemma_face_front(
        count,
        slot(face, pad, 0),
        slot(face, pad, 1),
        slot(face, pad, 2),
        slot(face, pad, 3),
        more,
    );
    lemma_face_back(face.flags, face.texture, face.material, tail);
    assert(s.skip(face_slots_end() + 4) == more.skip(4)) by {
        assert(s.skip(face_slots_end() + 4) =~= s.skip(face_slots_end()).skip(4));
    }
    assert(s.skip(face_slots_end() + 4 + tn) == more.skip(4 + tn)) by {
        assert(s.skip(face_slots_end() + 4 + tn) =~= s.skip(face_slots_end()).skip(4 + tn));
    }
    assert forall|i: int| 0 <= i < face.vertices.len() implies vertex_at(s, 4 + VERTEX_SIZE * i)
        == #[trigger] face.vertices[i] by {
        assert(i == 0 || i == 1 || i == 2 || i == 3);
    }
    lemma_face_read(s, face, tn as nat, text_bytes(face.material).len());
}

/// A face record reads as the face whose parts stand in it.
proof fn lemma_face_read(s: Seq<u8>, face: FaceView, tn: nat, mn: nat)
    requires
        face.vertices.len() == 3 || face.vertices.len() == 4,
        s.len() >= face_slots_end(),
        word_at(s, 0) == face.vertices.len(),
        forall|i: int|
            0 <= i < face.vertices.len() ==> vertex_at(s, 4 + VERTEX_SIZE * i)
                == #[trigger] face.vertices[i],
        parse_u32(s.skip(face_slots_end())) == Ok::<(u32, nat), Error>((face.flags, 4nat)),
        parse_text(s.skip(face_slots_end() + 4)) == Ok::<(Seq<char>, nat), Error>(
            (face.texture, tn),
        ),
        parse_text(s.skip(face_slots_end() + 4 + tn)) == Ok::<(Seq<char>, nat), Error>(
            (face.material, mn),
        ),
    ensures
        parse_face(s) == Ok::<(FaceView, nat), Error>(
            (face, (face_slots_end() + 4 + tn + mn) as nat),
        ),
{
    reveal(parse_face);
    assert(Seq::new(word_at(s, 0) as nat, |i: int| vertex_at(s, 4 + VERTEX_SIZE * i))
        =~= face.vertices);
}

/// A face record holds three or four vertices and always takes four vertex
/// slots: the flags stand behind the fourth slot whatever the count says, and
/// any other count is refused.
pub proof fn lemma_face_slots(s: Seq<u8>)
    ensures
        s.len() >= 4 && word_at(s, 0) != 3 && word_at(s, 0) != 4 ==> parse_face(s) == Err::<
            (FaceView, nat),
            Error,
        >(Error::BadVertexCount),
        parse_face(s) matches Ok((face, n)) ==> {
            &&& word_at(s, 0) == 3 || word_at(s, 0) == 4
            &&& face.vertices.len() == word_at(s, 0)
            &&& forall|i: int|
                0 <= i < face.vertices.len() ==> #[trigger] face.vertices[i] == vertex_at(
                    s,
                    4 + VERTEX_SIZE * i,
                )
            &&& face.flags == word_at(s, face_slots_end())
            &&& face_slots_end() == 4 + 4 * VERTEX_SIZE
            &&& parse_text(s.skip(face_slots_end() + 4)) matches Ok((texture, tn)) && (texture
                == face.texture && (parse_text(s.skip(face_slots_end() + 4 + tn)) matches Ok(
                (material, mn),
            ) && (material == face.material && n == face_slots_end() + 4 + tn + mn)))
        },
{
    reveal(parse_face);
}

/// The scan of a tag list ends behind the payload of a tag that is the end
/// tag.
pub proof fn lemma_scan_ends_at_end_tag(s: Seq<u8>)
    requires
        parse_tag(s) matches Ok((name, _)) && name == end_tag(),
    ensures
        scan_tags(s) == Ok::<nat, Error>(parse_tag(s)->Ok_0.1),
{
}

/// The scan of a tag list goes on behind the payload of a tag that is not the
/// end tag.
pub proof fn lemma_scan_goes_on(s: Seq<u8>)
    requires
        parse_tag(s) matches Ok((name, _)) && name != end_tag(),
    ensures
        scan_tags(s) == scanned(
            parse_tag(s)->Ok_0.1,
            scan_tags(s.skip(parse_tag(s)->Ok_0.1 as int)),
        ),
{
}

/// A tag reads the same from any input that starts with the same bytes up to
/// the end of its payload.
pub proof fn lemma_parse_tag_local(s: Seq<u8>, t: Seq<u8>)
    requires
        parse_tag(s) is Ok,
        t.len() >= parse_tag(s)->Ok_0.1,
        t.take(parse_tag(s)->Ok_0.1 as int) == s.take(parse_tag(s)->Ok_0.1 as int),
    ensures
        parse_tag(t) == parse_tag(s),
{
    reveal(parse_tag);
    let n = parse_tag(s)->Ok_0.1 as int;
    let tn = parse_text(s.skip(1))->Ok_0.1 as int;
    lemma_parse_text_len(s.skip(1));
    assert forall|i: int| 0 <= i < n implies t[i] == s[i] by {
        assert(t.take(n)[i] == s.take(n)[i]);
    }
    assert(t.skip(1).take(tn) =~= s.skip(1).take(tn));
    lemma_parse_text_local(s.skip(1), t.skip(1));
}

/// A scan that ends does not depend on what follows the payload of the end
/// tag: behind the same bytes any input gives the same result.
pub proof fn lemma_scan_reads_no_further(s: Seq<u8>, t: Seq<u8>)
    requires
        scan_tags(s) is Ok,
        t.len() >= scan_tags(s)->Ok_0,
        t.take(scan_tags(s)->Ok_0 as int) == s.take(scan_tags(s)->Ok_0 as int),
    ensures
        scan_tags(s)->Ok_0 <= s.len(),
        scan_tags(t) == scan_tags(s),
    decreases s.len(),
{
    let total = scan_tags(s)->Ok_0 as int;
    let used = parse_tag(s)->Ok_0.1 as int;
    lemma_parse_tag_len(s);
    lemma_scan_bounds(s);
    assert forall|i: int| 0 <= i < total implies t[i] == s[i] by {
        assert(t.take(total)[i] == s.take(total)[i]);
    }
    if parse_tag(s)->Ok_0.0 != end_tag() {
        let more = scan_tags(s.skip(used))->Ok_0 as int;
        assert(total == used + more);
        assert(t.take(used) =~= s.take(used));
        lemma_parse_tag_local(s, t);
        lemma_scan_bounds(s.skip(used));
        assert(t.skip(used).take(more) =~= s.skip(used).take(more));
        lemma_scan_reads_no_further(s.skip(used), t.skip(used));
    } else {
        lemma_parse_tag_local(s, t);
    }
}

/// A scan that ends took no more bytes than there are.
pub proof fn lemma_scan_bounds(s: Seq<u8>)
    ensures
        scan_tags(s) matches Ok(n) ==> 6 <= n <= s.len(),
    decreases s.len(),
{
    lemma_parse_tag_len(s);
    if parse_tag(s) is Ok && parse_tag(s)->Ok_0.0 != end_tag() {
        lemma_scan_bounds(s.skip(parse_tag(s)->Ok_0.1 as int));
    }
}

} // verus!
