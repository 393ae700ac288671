//! The PBO archive container: a header table, an optional block of string
//! metadata, the payloads in header order, and a SHA-1 digest as trailer.

use crate::assoc::{
    collect, get, has_key, keys_unique, lemma_collect_unique, lemma_index_of, lemma_put, position,
    put, without_key,
};
use crate::digest::{sha1, sha1_digest};
use crate::error::Error;
use crate::order::{
    arranged, lemma_sort_order, names_of, positions, sorted_by_name, sorted_positions,
};
use crate::wire::{
    after, lemma_after_after, lemma_after_nothing, lemma_parse_text_len, lemma_rest_skip,
    parse_bytes, parse_text,
    read_bytes, read_cstring, read_u32, rest, text_bytes, u32_le, within, word_at, write_bytes,
    write_cstring, write_u32,
};
use vstd::array::array_as_slice;
use vstd::prelude::*;
use vstd::string::StringExecFns;

verus! {

/// The packing-method value that marks the header in front of the metadata
/// block. It names no packing method.
pub const EXTENSION_MARKER: u32 = 0x5665_7273;

/// The number of bytes that the five words behind a header's name take.
pub const HEADER_WORDS_SIZE: u64 = 20;

/// The number of bytes of the digest in the trailer.
pub const DIGEST_SIZE: u64 = 20;

/// One record of the header table.
#[derive(Clone, Debug, PartialEq, Eq)]
pub struct PBOHeader {
    pub filename: String,
    pub packing_method: u32,
    pub original_size: u32,
    pub reserved: u32,
    pub timestamp: u32,
    pub data_size: u32,
}

/// The mathematical value of a header record.
pub struct HeaderView {
    pub filename: Seq<char>,
    pub packing_method: u32,
    pub original_size: u32,
    pub reserved: u32,
    pub timestamp: u32,
    pub data_size: u32,
}

impl View for PBOHeader {
    type V = HeaderView;

    open spec fn view(&self) -> HeaderView {
        HeaderView {
            filename: self.filename@,
            packing_method: self.packing_method,
            original_size: self.original_size,
            reserved: self.reserved,
            timestamp: self.timestamp,
            data_size: self.data_size,
        }
    }
}

/// The mathematical value of an archive.
pub struct ArchiveView {
    /// The payloads by name, in the order in which the names first came.
    pub files: Seq<(Seq<char>, Seq<u8>)>,
    /// The metadata values by key, in the order in which the keys first came.
    pub extensions: Seq<(Seq<char>, Seq<char>)>,
    /// The header table that the archive was decoded from; empty for an
    /// archive that was built in memory.
    pub headers: Seq<HeaderView>,
}

impl ArchiveView {
    /// No name and no metadata key occurs twice.
    pub open spec fn wf(self) -> bool {
        keys_unique(self.files) && keys_unique(self.extensions)
    }
}

/// An archive in memory.
pub struct PBO {
    files: Vec<(String, Vec<u8>)>,
    header_extensions: Vec<(String, String)>,
    headers: Vec<PBOHeader>,
}

/// The values of a list of named payloads.
pub open spec fn file_views(files: Seq<(String, Vec<u8>)>) -> Seq<(Seq<char>, Seq<u8>)> {
    files.map_values(|f: (String, Vec<u8>)| (f.0@, f.1@))
}

/// The values of a list of text pairs.
pub open spec fn pair_views(pairs: Seq<(String, String)>) -> Seq<(Seq<char>, Seq<char>)> {
    pairs.map_values(|p: (String, String)| (p.0@, p.1@))
}

/// The values of a list of header records.
pub open spec fn header_views(headers: Seq<PBOHeader>) -> Seq<HeaderView> {
    headers.map_values(|h: PBOHeader| h@)
}

impl View for PBO {
    type V = ArchiveView;

    closed spec fn view(&self) -> ArchiveView {
        ArchiveView {
            files: file_views(self.files@),
            extensions: pair_views(self.header_extensions@),
            headers: header_views(self.headers@),
        }
    }
}

/// Reading a header record: the name, then the packing method, the original
/// size, a reserved word, the timestamp and the payload size.
#[verifier::opaque]
pub open spec fn parse_header(s: Seq<u8>) -> Result<(HeaderView, nat), Error> {
    match parse_text(s) {
        Err(e) => Err(e),
        Ok((filename, n)) => if s.len() < n + HEADER_WORDS_SIZE {
            Err(Error::UnexpectedEof)
        } else {
            Ok(
                (
                    HeaderView {
                        filename,
                        packing_method: word_at(s, n as int),
                        original_size: word_at(s, n as int + 4),
                        reserved: word_at(s, n as int + 8),
                        timestamp: word_at(s, n as int + 12),
                        data_size: word_at(s, n as int + 16),
                    },
                    n + HEADER_WORDS_SIZE as nat,
                ),
            )
        },
    }
}

/// A header record takes at least the terminator of its name and its five
/// words, and no more than there is.
pub proof fn lemma_parse_header_len(s: Seq<u8>)
    ensures
        parse_header(s) matches Ok((_, n)) ==> 1 + HEADER_WORDS_SIZE <= n <= s.len(),
{
    reveal(parse_header);
    lemma_parse_text_len(s);
}

/// Reading the pairs of a metadata block, up to and including the empty key
/// that ends it.
pub open spec fn parse_pairs(s: Seq<u8>) -> Result<(Seq<(Seq<char>, Seq<char>)>, nat), Error>
    decreases s.len(),
{
    match parse_text(s) {
        Err(e) => Err(e),
        Ok((key, kn)) => if key.len() == 0 {
            Ok((Seq::empty(), kn))
        } else {
            match parse_text(s.skip(kn as int)) {
                Err(e) => Err(e),
                Ok((value, vn)) => {
                    proof {
                        lemma_parse_text_len(s);
                        lemma_parse_text_len(s.skip(kn as int));
                    }
                    after(seq![(key, value)], kn + vn, parse_pairs(s.skip((kn + vn) as int)))
                },
            }
        },
    }
}

/// Reading what may stand in front of the header table: a marker header and
/// the metadata block behind it. Where the first header is no marker, nothing
/// is read.
pub open spec fn parse_extensions(s: Seq<u8>) -> Result<(Seq<(Seq<char>, Seq<char>)>, nat), Error> {
    match parse_header(s) {
        Err(e) => Err(e),
        Ok((first, n)) => if first.packing_method == EXTENSION_MARKER {
            after(Seq::empty(), n, parse_pairs(s.skip(n as int)))
        } else {
            Ok((Seq::empty(), 0nat))
        },
    }
}

/// Reading the header table, up to and including the header with an empty
/// name that ends it. A marker header has no place in it.
pub open spec fn parse_headers(s: Seq<u8>) -> Result<(Seq<HeaderView>, nat), Error>
    decreases s.len(),
{
    match parse_header(s) {
        Err(e) => Err(e),
        Ok((header, n)) => if header.packing_method == EXTENSION_MARKER {
            Err(Error::MisplacedExtensions)
        } else if header.filename.len() == 0 {
            Ok((Seq::empty(), n))
        } else {
            proof {
                lemma_parse_header_len(s);
            }
            after(seq![header], n, parse_headers(s.skip(n as int)))
        },
    }
}

/// Reading the payloads of `headers`, each as long as its header says.
pub open spec fn parse_payloads(s: Seq<u8>, headers: Seq<HeaderView>) -> Result<
    (Seq<Seq<u8>>, nat),
    Error,
>
    decreases headers.len(),
{
    if headers.len() == 0 {
        Ok((Seq::empty(), 0nat))
    } else {
        match parse_bytes(s, headers[0].data_size as nat) {
            Err(e) => Err(e),
            Ok((payload, n)) => after(
                seq![payload],
                n,
                parse_payloads(s.skip(n as int), headers.drop_first()),
            ),
        }
    }
}

/// Each payload under the name of its header.
pub open spec fn named(headers: Seq<HeaderView>, payloads: Seq<Seq<u8>>) -> Seq<
    (Seq<char>, Seq<u8>),
>
    recommends
        headers.len() == payloads.len(),
{
    Seq::new(headers.len(), |i: int| (headers[i].filename, payloads[i]))
}

/// Reading an archive: the metadata block if there is one, the header table,
/// and the payloads in header order. Of two payloads under one name the later
/// stays, and so does the later of two metadata values under one key. What
/// follows the payloads is not read.
pub open spec fn parse_archive(s: Seq<u8>) -> Result<ArchiveView, Error> {
    match parse_extensions(s) {
        Err(e) => Err(e),
        Ok((pairs, en)) => match parse_headers(s.skip(en as int)) {
            Err(e) => Err(e),
            Ok((headers, hn)) => match parse_payloads(s.skip((en + hn) as int), headers) {
                Err(e) => Err(e),
                Ok((payloads, _)) => Ok(
                    ArchiveView {
                        files: collect(named(headers, payloads)),
                        extensions: collect(pairs),
                        headers,
                    },
                ),
            },
        },
    }
}

/// The bytes of a header record.
pub open spec fn header_bytes(h: HeaderView) -> Seq<u8> {
    text_bytes(h.filename) + u32_le(h.packing_method) + u32_le(h.original_size) + u32_le(
        h.reserved,
    ) + u32_le(h.timestamp) + u32_le(h.data_size)
}

/// The header that stands in front of the metadata block.
pub open spec fn marker_header() -> HeaderView {
    HeaderView {
        filename: Seq::empty(),
        packing_method: EXTENSION_MARKER,
        original_size: 0,
        reserved: 0,
        timestamp: 0,
        data_size: 0,
    }
}

/// The header that ends the header table.
pub open spec fn end_header() -> HeaderView {
    HeaderView {
        filename: Seq::empty(),
        packing_method: 0,
        original_size: 0,
        reserved: 0,
        timestamp: 0,
        data_size: 0,
    }
}

/// The header of a payload of `len` bytes that is stored as it is.
pub open spec fn stored_header(name: Seq<char>, len: nat) -> HeaderView {
    HeaderView {
        filename: name,
        packing_method: 0,
        original_size: len as u32,
        reserved: 0,
        timestamp: 0,
        data_size: len as u32,
    }
}

/// The metadata key whose pair is written first.
pub open spec fn prefix_key() -> Seq<char> {
    "prefix"@
}

/// The metadata pairs in the order in which they are written: the one under
/// the prefix key first, then the others in their order.
pub open spec fn written_pairs(extensions: Seq<(Seq<char>, Seq<char>)>) -> Seq<
    (Seq<char>, Seq<char>),
> {
    match get(extensions, prefix_key()) {
        Some(value) => seq![(prefix_key(), value)] + without_key(extensions, prefix_key()),
        None => without_key(extensions, prefix_key()),
    }
}

/// The bytes of one metadata pair.
pub open spec fn pair_bytes(pair: (Seq<char>, Seq<char>)) -> Seq<u8> {
    text_bytes(pair.0) + text_bytes(pair.1)
}

/// The bytes of metadata pairs, one after the other.
pub open spec fn pairs_bytes(pairs: Seq<(Seq<char>, Seq<char>)>) -> Seq<u8> {
    pairs.map_values(|p: (Seq<char>, Seq<char>)| pair_bytes(p)).flatten()
}

/// The bytes of a metadata block: the pairs, and an empty key that ends them.
pub open spec fn extension_block(extensions: Seq<(Seq<char>, Seq<char>)>) -> Seq<u8> {
    pairs_bytes(written_pairs(extensions)) + seq![0u8]
}

/// The bytes of the headers of `files`, in their order.
pub open spec fn header_table(files: Seq<(Seq<char>, Seq<u8>)>) -> Seq<u8> {
    files.map_values(
        |f: (Seq<char>, Seq<u8>)| header_bytes(stored_header(f.0, f.1.len())),
    ).flatten()
}

/// The payloads of `files`, one after the other.
pub open spec fn payload_block(files: Seq<(Seq<char>, Seq<u8>)>) -> Seq<u8> {
    files.map_values(|f: (Seq<char>, Seq<u8>)| f.1).flatten()
}

/// Every payload is short enough for a 32-bit size field.
pub open spec fn encodable(files: Seq<(Seq<char>, Seq<u8>)>) -> bool {
    forall|i: int| 0 <= i < files.len() ==> (#[trigger] files[i]).1.len() <= u32::MAX
}

/// What an archive is written as, up to the trailer: the marker header, the
/// metadata block, the header table sorted by name and its end, and the
/// payloads in the order of the header table.
pub open spec fn archive_body(a: ArchiveView) -> Seq<u8> {
    header_bytes(marker_header()) + extension_block(a.extensions) + header_table(
        sorted_by_name(a.files),
    ) + header_bytes(end_header()) + payload_block(sorted_by_name(a.files))
}

/// What an archive is written as: its body, a zero byte, and the SHA-1 digest
/// of the body.
pub open spec fn archive_bytes(a: ArchiveView) -> Seq<u8> {
    archive_body(a) + seq![0u8] + sha1_digest(archive_body(a))
}

/// Writing one more pair appends its bytes.
pub proof fn lemma_pairs_bytes_push(pairs: Seq<(Seq<char>, Seq<char>)>, pair: (Seq<char>, Seq<char>))
    ensures
        pairs_bytes(pairs.push(pair)) == pairs_bytes(pairs) + pair_bytes(pair),
{
    let each = |p: (Seq<char>, Seq<char>)| pair_bytes(p);
    assert(pairs.push(pair).map_values(each) =~= pairs.map_values(each).push(pair_bytes(pair)));
    pairs.map_values(each).lemma_flatten_push(pair_bytes(pair));
}

/// Writing one more header appends its bytes.
pub proof fn lemma_header_table_push(files: Seq<(Seq<char>, Seq<u8>)>, file: (Seq<char>, Seq<u8>))
    ensures
        header_table(files.push(file)) == header_table(files) + header_bytes(
            stored_header(file.0, file.1.len()),
        ),
{
    let each = |f: (Seq<char>, Seq<u8>)| header_bytes(stored_header(f.0, f.1.len()));
    assert(files.push(file).map_values(each) =~= files.map_values(each).push(each(file)));
    files.map_values(each).lemma_flatten_push(each(file));
}

/// Writing one more payload appends its bytes.
pub proof fn lemma_payload_block_push(files: Seq<(Seq<char>, Seq<u8>)>, file: (Seq<char>, Seq<u8>))
    ensures
        payload_block(files.push(file)) == payload_block(files) + file.1,
{
    let each = |f: (Seq<char>, Seq<u8>)| f.1;
    assert(files.push(file).map_values(each) =~= files.map_values(each).push(file.1));
    files.map_values(each).lemma_flatten_push(file.1);
}

/// Appends a header record with the given fields.
pub fn write_header(
    out: &mut Vec<u8>,
    filename: &str,
    packing_method: u32,
    original_size: u32,
    reserved: u32,
    timestamp: u32,
    data_size: u32,
)
    ensures
        final(out)@ == old(out)@ + header_bytes(
            HeaderView {
                filename: filename@,
                packing_method,
                original_size,
                reserved,
                timestamp,
                data_size,
            },
        ),
{
    write_cstring(out, filename);
    write_u32(out, packing_method);
    write_u32(out, original_size);
    write_u32(out, reserved);
    write_u32(out, timestamp);
    write_u32(out, data_size);
    assert(out@ =~= old(out)@ + header_bytes(
        HeaderView {
            filename: filename@,
            packing_method,
            original_size,
            reserved,
            timestamp,
            data_size,
        },
    ));
}

/// Appends a metadata block: the pair under the prefix key first, then the
/// other pairs, then the empty key.
pub fn write_extensions(out: &mut Vec<u8>, extensions: &Vec<(String, String)>)
    ensures
        final(out)@ == old(out)@ + extension_block(pair_views(extensions@)),
{
    let ghost list = pair_views(extensions@);
    let ghost mut done: Seq<(Seq<char>, Seq<char>)> = Seq::empty();
    let prefix = String::from_str("prefix");
    assert(pairs_bytes(done) =~= Seq::empty()) by {
        assert(done.map_values(|p: (Seq<char>, Seq<char>)| pair_bytes(p)) =~= Seq::empty());
    }
    assert(out@ =~= old(out)@ + pairs_bytes(done));
    match position(extensions, &prefix) {
        Some(i) => {
            proof {
                lemma_index_of(list, prefix@, i as int);
                lemma_pairs_bytes_push(done, (prefix@, extensions@[i as int].1@));
                done = done.push((prefix@, extensions@[i as int].1@));
            }
            write_cstring(out, prefix.as_str());
            write_cstring(out, extensions[i].1.as_str());
            assert(out@ =~= old(out)@ + pairs_bytes(done));
        },
        None => {
            assert(!has_key(list, prefix@));
        },
    }
    let ghost leading = done;
    let mut k: usize = 0;
    assert(list.take(0) =~= Seq::empty());
    assert(leading + without_key(list.take(0), prefix_key()) =~= leading);
    while k < extensions.len()
        invariant
            k <= extensions@.len(),
            list == pair_views(extensions@),
            prefix@ == prefix_key(),
            out@ == old(out)@ + pairs_bytes(leading + without_key(list.take(k as int), prefix_key())),
        decreases extensions@.len() - k,
    {
        let ghost before = without_key(list.take(k as int), prefix_key());
        assert(list.take(k + 1).drop_last() =~= list.take(k as int));
        assert(list.take(k + 1).last() == list[k as int]);
        if extensions[k].0 != prefix {
            proof {
                lemma_pairs_bytes_push(leading + before, list[k as int]);
                assert((leading + before).push(list[k as int]) =~= leading + before.push(
                    list[k as int],
                ));
            }
            write_cstring(out, extensions[k].0.as_str());
            write_cstring(out, extensions[k].1.as_str());
            assert(out@ =~= old(out)@ + pairs_bytes(
                leading + without_key(list.take(k + 1), prefix_key()),
            ));
        }
        k += 1;
    }
    assert(list.take(k as int) =~= list);
    out.push(0u8);
    assert(out@ =~= old(out)@ + extension_block(list));
}

impl PBOHeader {
    /// Reads a header record at `pos`.
    pub fn read(input: &[u8], pos: usize) -> (r: Result<(PBOHeader, usize), Error>)
        ensures
            match r {
                Ok((v, end)) => within(input@, pos, end) && parse_header(rest(input@, pos)) == Ok::<
                    (HeaderView, nat),
                    Error,
                >((v@, (end - pos) as nat)),
                Err(e) => parse_header(rest(input@, pos)) == Err::<(HeaderView, nat), Error>(e),
            },
    {
        proof {
            reveal(parse_header);
        }
        let (filename, at1): (String, usize) = read_cstring(input, pos)?;
        proof {
            lemma_rest_skip(input, pos, (at1 - pos) as nat);
        }
        let (packing_method, at2): (u32, usize) = read_u32(input, at1)?;
        proof {
            lemma_rest_skip(input, pos, (at2 - pos) as nat);
        }
        let (original_size, at3): (u32, usize) = read_u32(input, at2)?;
        proof {
            lemma_rest_skip(input, pos, (at3 - pos) as nat);
        }
        let (reserved, at4): (u32, usize) = read_u32(input, at3)?;
        proof {
            lemma_rest_skip(input, pos, (at4 - pos) as nat);
        }
        let (timestamp, at5): (u32, usize) = read_u32(input, at4)?;
        proof {
            lemma_rest_skip(input, pos, (at5 - pos) as nat);
        }
        let (data_size, at6): (u32, usize) = read_u32(input, at5)?;
        Ok(
            (
                PBOHeader {
                    filename,
                    packing_method,
                    original_size,
                    reserved,
                    timestamp,
                    data_size,
                },
                at6,
            ),
        )
    }

    /// Appends the header record.
    pub fn write(&self, out: &mut Vec<u8>)
        ensures
            final(out)@ == old(out)@ + header_bytes(self@),
    {
        write_header(
            out,
            self.filename.as_str(),
            self.packing_method,
            self.original_size,
            self.reserved,
            self.timestamp,
            self.data_size,
        );
    }
}

/// Reads the pairs of a metadata block at `pos`.
pub fn read_pairs(input: &[u8], pos: usize) -> (r: Result<(Vec<(String, String)>, usize), Error>)
    ensures
        match r {
            Ok((v, end)) => within(input@, pos, end) && parse_pairs(rest(input@, pos)) == Ok::<
                (Seq<(Seq<char>, Seq<char>)>, nat),
                Error,
            >((pair_views(v@), (end - pos) as nat)),
            Err(e) => parse_pairs(rest(input@, pos)) == Err::<
                (Seq<(Seq<char>, Seq<char>)>, nat),
                Error,
            >(e),
        },
{
    let mut pairs: Vec<(String, String)> = Vec::new();
    let mut at: usize = pos;
    proof {
        lemma_after_nothing(parse_pairs(rest(input@, pos)));
        assert(pair_views(pairs@) =~= Seq::empty());
    }
    loop
        invariant
            within(input@, pos, at),
            parse_pairs(rest(input@, pos)) == after(
                pair_views(pairs@),
                (at - pos) as nat,
                parse_pairs(rest(input@, at)),
            ),
        decreases rest(input@, at).len(),
    {
        let ghost done = pair_views(pairs@);
        proof {
            lemma_parse_text_len(rest(input@, at));
        }
        let (key, at1): (String, usize) = read_cstring(input, at)?;
        if key.as_str().is_empty() {
            assert(done + Seq::<(Seq<char>, Seq<char>)>::empty() =~= done);
            return Ok((pairs, at1));
        }
        proof {
            lemma_rest_skip(input, at, (at1 - at) as nat);
        }
        let (value, at2): (String, usize) = read_cstring(input, at1)?;
        proof {
            lemma_rest_skip(input, at, (at2 - at) as nat);
            lemma_after_after(
                done,
                (at - pos) as nat,
                (key@, value@),
                (at2 - at) as nat,
                parse_pairs(rest(input@, at2)),
            );
            assert(pair_views(pairs@.push((key, value))) =~= done.push((key@, value@)));
        }
        pairs.push((key, value));
        at = at2;
    }
}

/// Reads what may stand in front of the header table at `pos`: a marker header
/// with its metadata block. Where the first header is no marker, nothing is
/// read and the position stays.
pub fn read_extensions(input: &[u8], pos: usize) -> (r: Result<
    (Vec<(String, String)>, usize),
    Error,
>)
    ensures
        match r {
            Ok((v, end)) => within(input@, pos, end) && parse_extensions(rest(input@, pos)) == Ok::<
                (Seq<(Seq<char>, Seq<char>)>, nat),
                Error,
            >((pair_views(v@), (end - pos) as nat)),
            Err(e) => parse_extensions(rest(input@, pos)) == Err::<
                (Seq<(Seq<char>, Seq<char>)>, nat),
                Error,
            >(e),
        },
{
    let (first, at1): (PBOHeader, usize) = PBOHeader::read(input, pos)?;
    if first.packing_method != EXTENSION_MARKER {
        let none: Vec<(String, String)> = Vec::new();
        assert(pair_views(none@) =~= Seq::empty());
        return Ok((none, pos));
    }
    proof {
        lemma_rest_skip(input, pos, (at1 - pos) as nat);
    }
    let (pairs, at2): (Vec<(String, String)>, usize) = read_pairs(input, at1)?;
    assert(Seq::<(Seq<char>, Seq<char>)>::empty() + pair_views(pairs@) =~= pair_views(pairs@));
    Ok((pairs, at2))
}

/// Reads the header table at `pos`.
pub fn read_headers(input: &[u8], pos: usize) -> (r: Result<(Vec<PBOHeader>, usize), Error>)
    ensures
        match r {
            Ok((v, end)) => within(input@, pos, end) && parse_headers(rest(input@, pos)) == Ok::<
                (Seq<HeaderView>, nat),
                Error,
            >((header_views(v@), (end - pos) as nat)),
            Err(e) => parse_headers(rest(input@, pos)) == Err::<(Seq<HeaderView>, nat), Error>(e),
        },
{
    let mut headers: Vec<PBOHeader> = Vec::new();
    let mut at: usize = pos;
    proof {
        lemma_after_nothing(parse_headers(rest(input@, pos)));
        assert(header_views(headers@) =~= Seq::empty());
    }
    loop
        invariant
            within(input@, pos, at),
            parse_headers(rest(input@, pos)) == after(
                header_views(headers@),
                (at - pos) as nat,
                parse_headers(rest(input@, at)),
            ),
        decreases rest(input@, at).len(),
    {
        let ghost done = header_views(headers@);
        proof {
            lemma_parse_header_len(rest(input@, at));
        }
        let (header, next): (PBOHeader, usize) = PBOHeader::read(input, at)?;
        if header.packing_method == EXTENSION_MARKER {
            return Err(Error::MisplacedExtensions);
        }
        if header.filename.as_str().is_empty() {
            assert(done + Seq::<HeaderView>::empty() =~= done);
            return Ok((headers, next));
        }
        proof {
            lemma_rest_skip(input, at, (next - at) as nat);
            lemma_after_after(
                done,
                (at - pos) as nat,
                header@,
                (next - at) as nat,
                parse_headers(rest(input@, next)),
            );
            assert(header_views(headers@.push(header)) =~= done.push(header@));
        }
        headers.push(header);
        at = next;
    }
}

/// Puts a payload under a name: in the place of the payload that the name
/// had, or at the end.
pub fn put_file(files: &mut Vec<(String, Vec<u8>)>, name: String, data: Vec<u8>)
    ensures
        file_views(final(files)@) == put(file_views(old(files)@), name@, data@),
{
    let ghost before = file_views(files@);
    match position(files, &name) {
        Some(i) => {
            proof {
                lemma_index_of(before, name@, i as int);
            }
            files.set(i, (name, data));
            assert(file_views(files@) =~= before.update(i as int, (name@, data@)));
        },
        None => {
            assert(!has_key(before, name@));
            files.push((name, data));
            assert(file_views(files@) =~= before.push((name@, data@)));
        },
    }
}

/// Puts a metadata value under a key: in the place of the value that the key
/// had, or at the end.
pub fn put_pair(pairs: &mut Vec<(String, String)>, key: String, value: String)
    ensures
        pair_views(final(pairs)@) == put(pair_views(old(pairs)@), key@, value@),
{
    let ghost before = pair_views(pairs@);
    match position(pairs, &key) {
        Some(i) => {
            proof {
                lemma_index_of(before, key@, i as int);
            }
            pairs.set(i, (key, value));
            assert(pair_views(pairs@) =~= before.update(i as int, (key@, value@)));
        },
        None => {
            assert(!has_key(before, key@));
            pairs.push((key, value));
            assert(pair_views(pairs@) =~= before.push((key@, value@)));
        },
    }
}

/// Builds the metadata mapping from the pairs of a metadata block: of two
/// values under one key the later stays.
pub fn collect_pairs(pairs: &Vec<(String, String)>) -> (r: Vec<(String, String)>)
    ensures
        pair_views(r@) == collect(pair_views(pairs@)),
{
    let mut out: Vec<(String, String)> = Vec::new();
    let mut i: usize = 0;
    assert(pair_views(out@) =~= Seq::empty());
    assert(pair_views(pairs@).take(0) =~= Seq::empty());
    while i < pairs.len()
        invariant
            i <= pairs@.len(),
            pair_views(out@) == collect(pair_views(pairs@).take(i as int)),
        decreases pairs@.len() - i,
    {
        let key = pairs[i].0.clone();
        let value = pairs[i].1.clone();
        proof {
            let next = pair_views(pairs@).take(i + 1);
            assert(next.drop_last() =~= pair_views(pairs@).take(i as int));
            assert(next.last() == (key@, value@));
        }
        put_pair(&mut out, key, value);
        i += 1;
    }
    assert(pair_views(pairs@).take(pairs@.len() as int) =~= pair_views(pairs@));
    out
}

/// Reads the payloads of `headers` at `pos`, each as long as its header says,
/// and puts each under the name of its header.
pub fn read_files(input: &[u8], pos: usize, headers: &Vec<PBOHeader>) -> (r: Result<
    Vec<(String, Vec<u8>)>,
    Error,
>)
    ensures
        match (r, parse_payloads(rest(input@, pos), header_views(headers@))) {
            (Ok(files), Ok((payloads, _))) => file_views(files@) == collect(
                named(header_views(headers@), payloads),
            ),
            (Err(e), Err(expected)) => e == expected,
            _ => false,
        },
{
    let ghost table = header_views(headers@);
    let mut files: Vec<(String, Vec<u8>)> = Vec::new();
    let ghost mut done: Seq<Seq<u8>> = Seq::empty();
    let mut at: usize = pos;
    let mut i: usize = 0;
    proof {
        lemma_after_nothing(parse_payloads(rest(input@, pos), table));
        assert(table.skip(0) =~= table);
        assert(file_views(files@) =~= Seq::empty());
        assert(named(table.take(0), done) =~= Seq::empty());
    }
    while i < headers.len()
        invariant
            i <= headers@.len(),
            table == header_views(headers@),
            done.len() == i,
            within(input@, pos, at),
            parse_payloads(rest(input@, pos), table) == after(
                done,
                (at - pos) as nat,
                parse_payloads(rest(input@, at), table.skip(i as int)),
            ),
            file_views(files@) == collect(named(table.take(i as int), done)),
        decreases headers@.len() - i,
    {
        let ghost left = table.skip(i as int);
        assert(left[0] == table[i as int]);
        assert(left.drop_first() =~= table.skip(i + 1));
        let (payload, next): (Vec<u8>, usize) = read_bytes(
            input,
            at,
            headers[i].data_size as usize,
        )?;
        let name = headers[i].filename.clone();
        proof {
            lemma_rest_skip(input, at, (next - at) as nat);
            lemma_after_after(
                done,
                (at - pos) as nat,
                payload@,
                (next - at) as nat,
                parse_payloads(rest(input@, next), table.skip(i + 1)),
            );
            let grown = named(table.take(i + 1), done.push(payload@));
            assert(grown.drop_last() =~= named(table.take(i as int), done));
            assert(grown.last() == (name@, payload@));
            done = done.push(payload@);
        }
        put_file(&mut files, name, payload);
        at = next;
        i += 1;
    }
    proof {
        assert(table.take(i as int) =~= table);
        assert(table.skip(i as int) =~= Seq::empty());
        assert(done + Seq::<Seq<u8>>::empty() =~= done);
    }
    Ok(files)
}

/// Appends the header of each payload of `files`, taken in the order that
/// `order` gives.
pub fn write_header_table(out: &mut Vec<u8>, files: &Vec<(String, Vec<u8>)>, order: &Vec<usize>)
    requires
        encodable(file_views(files@)),
        forall|k: int| 0 <= k < order@.len() ==> #[trigger] order@[k] < files@.len(),
    ensures
        final(out)@ == old(out)@ + header_table(
            arranged(file_views(files@), positions(order@)),
        ),
{
    let ghost list = arranged(file_views(files@), positions(order@));
    let mut k: usize = 0;
    assert(header_table(list.take(0)) =~= Seq::empty()) by {
        assert(list.take(0).map_values(
            |f: (Seq<char>, Seq<u8>)| header_bytes(stored_header(f.0, f.1.len())),
        ) =~= Seq::empty());
    }
    assert(out@ =~= old(out)@ + header_table(list.take(0)));
    while k < order.len()
        invariant
            k <= order@.len(),
            encodable(file_views(files@)),
            forall|j: int| 0 <= j < order@.len() ==> #[trigger] order@[j] < files@.len(),
            list == arranged(file_views(files@), positions(order@)),
            out@ == old(out)@ + header_table(list.take(k as int)),
        decreases order@.len() - k,
    {
        let file = &files[order[k]];
        let size: usize = file.1.len();
        proof {
            assert(list[k as int] == file_views(files@)[order@[k as int] as int]);
            assert(list[k as int] == (file.0@, file.1@));
            assert(list.take(k + 1) =~= list.take(k as int).push(list[k as int]));
            lemma_header_table_push(list.take(k as int), list[k as int]);
        }
        write_header(out, file.0.as_str(), 0, size as u32, 0, 0, size as u32);
        assert(out@ =~= old(out)@ + header_table(list.take(k + 1)));
        k += 1;
    }
    assert(list.take(k as int) =~= list);
}

/// Appends each payload of `files`, taken in the order that `order` gives.
pub fn write_payloads(out: &mut Vec<u8>, files: &Vec<(String, Vec<u8>)>, order: &Vec<usize>)
    requires
        forall|k: int| 0 <= k < order@.len() ==> #[trigger] order@[k] < files@.len(),
    ensures
        final(out)@ == old(out)@ + payload_block(
            arranged(file_views(files@), positions(order@)),
        ),
{
    let ghost list = arranged(file_views(files@), positions(order@));
    let mut k: usize = 0;
    assert(payload_block(list.take(0)) =~= Seq::empty()) by {
        assert(list.take(0).map_values(|f: (Seq<char>, Seq<u8>)| f.1) =~= Seq::empty());
    }
    assert(out@ =~= old(out)@ + payload_block(list.take(0)));
    while k < order.len()
        invariant
            k <= order@.len(),
            forall|j: int| 0 <= j < order@.len() ==> #[trigger] order@[j] < files@.len(),
            list == arranged(file_views(files@), positions(order@)),
            out@ == old(out)@ + payload_block(list.take(k as int)),
        decreases order@.len() - k,
    {
        let file = &files[order[k]];
        proof {
            assert(list[k as int] == file_views(files@)[order@[k as int] as int]);
            assert(list[k as int] == (file.0@, file.1@));
            assert(list.take(k + 1) =~= list.take(k as int).push(list[k as int]));
            lemma_payload_block_push(list.take(k as int), list[k as int]);
        }
        write_bytes(out, file.1.as_slice());
        assert(out@ =~= old(out)@ + payload_block(list.take(k + 1)));
        k += 1;
    }
    assert(list.take(k as int) =~= list);
}

/// Whether every payload of `files` is short enough for a 32-bit size field.
pub fn sizes_fit(files: &Vec<(String, Vec<u8>)>) -> (r: bool)
    ensures
        r == encodable(file_views(files@)),
{
    let mut i: usize = 0;
    while i < files.len()
        invariant
            i <= files@.len(),
            forall|k: int| 0 <= k < i ==> (#[trigger] file_views(files@)[k]).1.len() <= u32::MAX,
        decreases files@.len() - i,
    {
        if files[i].1.len() > u32::MAX as usize {
            assert(file_views(files@)[i as int].1.len() > u32::MAX);
            return false;
        }
        i += 1;
    }
    true
}

/// The names of `files`, in their order.
pub fn file_names(files: &Vec<(String, Vec<u8>)>) -> (names: Vec<String>)
    ensures
        names@.map_values(|n: String| n@) == names_of(file_views(files@)),
{
    let mut names: Vec<String> = Vec::new();
    let mut i: usize = 0;
    while i < files.len()
        invariant
            i <= files@.len(),
            names@.len() == i,
            forall|k: int| 0 <= k < i ==> (#[trigger] names@[k])@ == files@[k].0@,
        decreases files@.len() - i,
    {
        names.push(files[i].0.clone());
        i += 1;
    }
    assert(names@.map_values(|n: String| n@) =~= names_of(file_views(files@)));
    names
}

impl PBO {
    #[verifier::type_invariant]
    closed spec fn inv(self) -> bool {
        self@.wf()
    }

    /// An archive that holds nothing.
    pub fn new() -> (r: PBO)
        ensures
            r@.files == Seq::<(Seq<char>, Seq<u8>)>::empty(),
            r@.extensions == Seq::<(Seq<char>, Seq<char>)>::empty(),
            r@.headers == Seq::<HeaderView>::empty(),
    {
        let files: Vec<(String, Vec<u8>)> = Vec::new();
        let header_extensions: Vec<(String, String)> = Vec::new();
        let headers: Vec<PBOHeader> = Vec::new();
        assert(file_views(files@) =~= Seq::empty());
        assert(pair_views(header_extensions@) =~= Seq::empty());
        assert(header_views(headers@) =~= Seq::empty());
        PBO { files, header_extensions, headers }
    }

    /// The archive with a payload put under `name`, in the place of the
    /// payload that the name had, if any.
    pub fn with_file(self, name: String, data: Vec<u8>) -> (r: PBO)
        ensures
            r@.files == put(self@.files, name@, data@),
            r@.extensions == self@.extensions,
            r@.headers == self@.headers,
    {
        proof {
            use_type_invariant(&self);
            lemma_put(self@.files, name@, data@);
        }
        let PBO { files, header_extensions, headers } = self;
        let mut files = files;
        put_file(&mut files, name, data);
        PBO { files, header_extensions, headers }
    }

    /// The archive with a metadata value put under `key`, in the place of the
    /// value that the key had, if any.
    pub fn with_extension(self, key: String, value: String) -> (r: PBO)
        ensures
            r@.files == self@.files,
            r@.extensions == put(self@.extensions, key@, value@),
            r@.headers == self@.headers,
    {
        proof {
            use_type_invariant(&self);
            lemma_put(self@.extensions, key@, value@);
        }
        let PBO { files, header_extensions, headers } = self;
        let mut header_extensions = header_extensions;
        put_pair(&mut header_extensions, key, value);
        PBO { files, header_extensions, headers }
    }

    /// Decodes an archive from the start of `input`. The digest that trails
    /// the payloads is not read.
    pub fn read(input: &[u8]) -> (r: Result<PBO, Error>)
        ensures
            match r {
                Ok(v) => parse_archive(input@) == Ok::<ArchiveView, Error>(v@),
                Err(e) => parse_archive(input@) == Err::<ArchiveView, Error>(e),
            },
    {
        assert(rest(input@, 0) =~= input@);
        let (pairs, at1): (Vec<(String, String)>, usize) = read_extensions(input, 0)?;
        proof {
            lemma_rest_skip(input, 0, at1 as nat);
        }
        let (headers, at2): (Vec<PBOHeader>, usize) = read_headers(input, at1)?;
        proof {
            lemma_rest_skip(input, 0, at2 as nat);
        }
        let files = read_files(input, at2, &headers)?;
        let header_extensions = collect_pairs(&pairs);
        proof {
            let payloads = parse_payloads(input@.skip(at2 as int), header_views(headers@))->Ok_0.0;
            lemma_collect_unique(named(header_views(headers@), payloads));
            lemma_collect_unique(pair_views(pairs@));
        }
        Ok(PBO { files, header_extensions, headers })
    }

    /// Encodes the archive. The header table and the payloads come sorted by
    /// name without regard to case; every header says that its payload is
    /// stored as it is, with both sizes set to the payload's length and the
    /// reserved word and the timestamp zero. The trailer is a zero byte and
    /// the SHA-1 digest of everything before it.
    pub fn write(&self) -> (r: Result<Vec<u8>, Error>)
        ensures
            match r {
                Ok(out) => encodable(self@.files) && out@ == archive_bytes(self@) && out@.len()
                    == archive_body(self@).len() + 1 + DIGEST_SIZE,
                Err(e) => e == Error::PayloadTooLarge && !encodable(self@.files),
            },
    {
        if !sizes_fit(&self.files) {
            return Err(Error::PayloadTooLarge);
        }
        let names = file_names(&self.files);
        let order = sorted_positions(&names);
        proof {
            lemma_sort_order(names_of(self@.files));
            assert forall|k: int| 0 <= k < order@.len() implies #[trigger] order@[k]
                < self.files@.len() by {
                assert(positions(order@)[k] == order@[k]);
            }
            reveal_strlit("");
            assert(""@ =~= Seq::<char>::empty());
        }
        let mut out: Vec<u8> = Vec::new();
        write_header(&mut out, "", EXTENSION_MARKER, 0, 0, 0, 0);
        write_extensions(&mut out, &self.header_extensions);
        write_header_table(&mut out, &self.files, &order);
        write_header(&mut out, "", 0, 0, 0, 0, 0);
        write_payloads(&mut out, &self.files, &order);
        assert(out@ =~= archive_body(self@));
        let digest = sha1(out.as_slice());
        out.push(0u8);
        write_bytes(&mut out, array_as_slice(&digest));
        assert(out@ =~= archive_bytes(self@));
        Ok(out)
    }

    /// The header table that the archive was decoded from.
    pub fn headers(&self) -> (r: &Vec<PBOHeader>)
        ensures
            header_views(r@) == self@.headers,
    {
        &self.headers
    }

    /// The payloads by name.
    pub fn files(&self) -> (r: &Vec<(String, Vec<u8>)>)
        ensures
            file_views(r@) == self@.files,
            keys_unique(self@.files),
    {
        proof {
            use_type_invariant(self);
        }
        &self.files
    }

    /// The metadata values by key.
    pub fn header_extensions(&self) -> (r: &Vec<(String, String)>)
        ensures
            pair_views(r@) == self@.extensions,
            keys_unique(self@.extensions),
    {
        proof {
            use_type_invariant(self);
        }
        &self.header_extensions
    }

    /// The payload that the archive holds under `name`.
    pub fn file(&self, name: &String) -> (r: Option<&Vec<u8>>)
        ensures
            match r {
                Some(data) => get(self@.files, name@) == Some(data@),
                None => get(self@.files, name@) == None::<Seq<u8>>,
            },
    {
        match position(&self.files, name) {
            Some(i) => {
                proof {
                    lemma_index_of(file_views(self.files@), name@, i as int);
                }
                Some(&self.files[i].1)
            },
            None => {
                assert(!has_key(file_views(self.files@), name@));
                None
            },
        }
    }
}

} // verus!
