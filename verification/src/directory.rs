//! The projection between a directory tree and an archive.
//!
//! A directory tree is given as a listing: for each file its path relative to
//! the root, with `/` between the components, and its content. A file whose
//! name is `$PBOPREFIX$` declares metadata and is no payload.

use crate::assoc::{has_key, position, put, put_all};
use crate::pbo::{file_views, pair_views, prefix_key, ArchiveView, PBO};
use crate::text::{replace_char, replaced};
use crate::wire::text_from_utf8;
use vstd::prelude::*;
use vstd::slice::slice_to_vec;
use vstd::string::{StrSliceExecFns, StringExecFns};
use vstd::utf8::{decode_utf8, encode_utf8, valid_utf8};

verus! {

/// The name of the file that declares metadata.
pub open spec fn prefix_file_name() -> Seq<char> {
    "$PBOPREFIX$"@
}

/// The archive name of a file: its path with a backslash for every slash.
pub open spec fn archive_name(path: Seq<char>) -> Seq<char> {
    replaced(path, '/', '\\')
}

/// The path of an entry below the root: its name with a slash for every
/// backslash.
pub open spec fn directory_path(name: Seq<char>) -> Seq<char> {
    replaced(name, '\\', '/')
}

/// The last component of the archive name is the name of the metadata file.
pub open spec fn is_prefix_file(name: Seq<char>) -> bool {
    let n = name.len() as int;
    let k = prefix_file_name().len() as int;
    &&& n >= k
    &&& name.skip(n - k) == prefix_file_name()
    &&& (n == k || name[n - k - 1] == '\\')
}

/// The first position of `text` that holds `c`, or the length of `text` where
/// none does.
pub open spec fn offset_of(text: Seq<char>, c: char) -> int
    decreases text.len(),
{
    if text.len() == 0 {
        0
    } else if text[0] == c {
        0
    } else {
        1 + offset_of(text.drop_first(), c)
    }
}

/// The pair that a line of the metadata file declares: a bare value stands
/// under the prefix key; otherwise the key is what stands before the first
/// `=`, and the value what stands between it and the next.
pub open spec fn line_pair(line: Seq<char>) -> (Seq<char>, Seq<char>) {
    let e = offset_of(line, '=');
    if e == line.len() {
        (prefix_key(), line)
    } else {
        let tail = line.skip(e + 1);
        (line.take(e), tail.take(offset_of(tail, '=')))
    }
}

/// The pairs that the lines of a metadata file declare, up to its first empty
/// line.
pub open spec fn declared_pairs(text: Seq<char>) -> Seq<(Seq<char>, Seq<char>)>
    decreases text.len(),
{
    let n = offset_of(text, '\n');
    if n == 0 {
        Seq::empty()
    } else if n < text.len() {
        proof {
            lemma_offset_bounds(text, '\n');
        }
        seq![line_pair(text.take(n))] + declared_pairs(text.skip(n + 1))
    } else {
        seq![line_pair(text)]
    }
}

/// The pairs that the content of a metadata file declares. Content that is no
/// text declares nothing.
pub open spec fn prefix_file_pairs(content: Seq<u8>) -> Seq<(Seq<char>, Seq<char>)> {
    if valid_utf8(content) {
        declared_pairs(decode_utf8(content))
    } else {
        Seq::empty()
    }
}

/// The archive that holds nothing.
pub open spec fn empty_archive() -> ArchiveView {
    ArchiveView { files: Seq::empty(), extensions: Seq::empty(), headers: Seq::empty() }
}

/// What the files of a listing amount to, taken in their order: a metadata
/// file adds the pairs that it declares, and every other file becomes a
/// payload under its archive name.
pub open spec fn gathered(listing: Seq<(Seq<char>, Seq<u8>)>) -> ArchiveView
    decreases listing.len(),
{
    if listing.len() == 0 {
        empty_archive()
    } else {
        let before = gathered(listing.drop_last());
        let name = archive_name(listing.last().0);
        if is_prefix_file(name) {
            ArchiveView {
                extensions: put_all(before.extensions, prefix_file_pairs(listing.last().1)),
                ..before
            }
        } else {
            ArchiveView { files: put(before.files, name, listing.last().1), ..before }
        }
    }
}

/// The archive that a directory stands for. Where no metadata file declares a
/// prefix, the prefix is the name of the root directory.
pub open spec fn projected(root: Seq<char>, listing: Seq<(Seq<char>, Seq<u8>)>) -> ArchiveView {
    let found = gathered(listing);
    if has_key(found.extensions, prefix_key()) {
        found
    } else {
        ArchiveView { extensions: put(found.extensions, prefix_key(), root), ..found }
    }
}

/// The text of the metadata file that declares `extensions`: a line of key,
/// `=` and value for each pair.
pub open spec fn prefix_file_text(extensions: Seq<(Seq<char>, Seq<char>)>) -> Seq<char>
    decreases extensions.len(),
{
    if extensions.len() == 0 {
        Seq::empty()
    } else {
        prefix_file_text(extensions.drop_last()) + extensions.last().0 + seq!['='] + extensions.last().1
            + seq!['\n']
    }
}

/// The listing that an archive unpacks to: a metadata file where the archive
/// has metadata, then every payload under its path.
pub open spec fn unpacked(a: ArchiveView) -> Seq<(Seq<char>, Seq<u8>)> {
    let payloads = a.files.map_values(|f: (Seq<char>, Seq<u8>)| (directory_path(f.0), f.1));
    if a.extensions.len() > 0 {
        seq![(prefix_file_name(), encode_utf8(prefix_file_text(a.extensions)))] + payloads
    } else {
        payloads
    }
}

/// The offset of a character lies within the text.
pub proof fn lemma_offset_bounds(text: Seq<char>, c: char)
    ensures
        0 <= offset_of(text, c) <= text.len(),
    decreases text.len(),
{
    if text.len() > 0 && text[0] != c {
        lemma_offset_bounds(text.drop_first(), c);
    }
}

/// A position before which `c` does not occur, and which holds `c` or is the
/// end, is the offset of `c`.
pub proof fn lemma_offset_of(text: Seq<char>, c: char, i: int)
    requires
        0 <= i <= text.len(),
        forall|k: int| 0 <= k < i ==> text[k] != c,
        i == text.len() || text[i] == c,
    ensures
        offset_of(text, c) == i,
    decreases text.len(),
{
    if text.len() > 0 && text[0] != c {
        let tail = text.drop_first();
        assert forall|k: int| 0 <= k < i - 1 implies tail[k] != c by {
            assert(tail[k] == text[k + 1]);
        }
        lemma_offset_of(tail, c, i - 1);
    }
}

/// The first position at or behind `from` and before `to` at which `text`
/// holds `c`, or `to` where there is none.
pub fn find_char(text: &str, from: usize, to: usize, c: char) -> (i: usize)
    requires
        from <= to <= text@.len(),
    ensures
        from <= i <= to,
        i - from == offset_of(text@.subrange(from as int, to as int), c),
{
    let ghost part = text@.subrange(from as int, to as int);
    let mut i: usize = from;
    while i < to && text.get_char(i) != c
        invariant
            from <= i <= to <= text@.len(),
            part == text@.subrange(from as int, to as int),
            forall|k: int| 0 <= k < i - from ==> part[k] != c,
        decreases to - i,
    {
        i += 1;
    }
    proof {
        lemma_offset_of(part, c, i - from);
    }
    i
}

/// Whether the last component of an archive name is the name of the metadata
/// file.
pub fn names_prefix_file(name: &str) -> (r: bool)
    ensures
        r == is_prefix_file(name@),
{
    proof {
        reveal_strlit("$PBOPREFIX$");
    }
    let marker = String::from_str("$PBOPREFIX$");
    let n: usize = name.unicode_len();
    if n < 11 {
        return false;
    }
    let last = String::from_str(name.substring_char(n - 11, n));
    assert(name@.skip(n - 11) =~= name@.subrange(n - 11, n as int));
    if last != marker {
        return false;
    }
    n == 11 || name.get_char(n - 12) == '\\'
}

/// Reads the pair that the line of `text` from `from` to `to` declares.
fn read_line_pair(text: &str, from: usize, to: usize) -> (r: (String, String))
    requires
        from <= to <= text@.len(),
    ensures
        (r.0@, r.1@) == line_pair(text@.subrange(from as int, to as int)),
{
    let ghost line = text@.subrange(from as int, to as int);
    let e: usize = find_char(text, from, to, '=');
    if e == to {
        let value = String::from_str(text.substring_char(from, to));
        return (String::from_str("prefix"), value);
    }
    let e2: usize = find_char(text, e + 1, to, '=');
    let key = String::from_str(text.substring_char(from, e));
    let value = String::from_str(text.substring_char(e + 1, e2));
    proof {
        let tail = line.skip(e - from + 1);
        assert(tail =~= text@.subrange(e + 1, to as int));
        assert(key@ =~= line.take(e - from));
        assert(value@ =~= tail.take(e2 - e - 1));
    }
    (key, value)
}

/// Reads the pairs that the lines of a metadata file declare, up to its first
/// empty line.
pub fn read_declared_pairs(text: &str) -> (r: Vec<(String, String)>)
    ensures
        pair_views(r@) == declared_pairs(text@),
{
    let n: usize = text.unicode_len();
    let mut pairs: Vec<(String, String)> = Vec::new();
    let mut at: usize = 0;
    assert(text@.skip(0) =~= text@);
    assert(pair_views(pairs@) + declared_pairs(text@.skip(0)) =~= declared_pairs(text@));
    loop
        invariant
            at <= n,
            n == text@.len(),
            declared_pairs(text@) == pair_views(pairs@) + declared_pairs(text@.skip(at as int)),
        decreases n - at,
    {
        let ghost left = text@.skip(at as int);
        let ghost done = pair_views(pairs@);
        assert(left =~= text@.subrange(at as int, n as int));
        let end: usize = find_char(text, at, n, '\n');
        if end == at {
            assert(done + Seq::<(Seq<char>, Seq<char>)>::empty() =~= done);
            return pairs;
        }
        let pair = read_line_pair(text, at, end);
        proof {
            assert(left.take(end - at) =~= text@.subrange(at as int, end as int));
            assert(pair_views(pairs@.push(pair)) =~= done.push((pair.0@, pair.1@)));
        }
        pairs.push(pair);
        if end == n {
            assert(left.take(end - at) =~= left);
            assert(done + seq![line_pair(left)] =~= pair_views(pairs@));
            return pairs;
        }
        proof {
            assert(left.skip(end - at + 1) =~= text@.skip(end + 1));
            assert(done + (seq![line_pair(left.take(end - at))] + declared_pairs(
                text@.skip(end + 1),
            )) =~= pair_views(pairs@) + declared_pairs(text@.skip(end + 1)));
        }
        at = end + 1;
    }
}

/// Reads the pairs that the content of a metadata file declares.
pub fn read_prefix_file(content: &Vec<u8>) -> (r: Vec<(String, String)>)
    ensures
        pair_views(r@) == prefix_file_pairs(content@),
{
    match text_from_utf8(slice_to_vec(content.as_slice())) {
        Some(text) => read_declared_pairs(text.as_str()),
        None => {
            let none: Vec<(String, String)> = Vec::new();
            assert(pair_views(none@) =~= Seq::empty());
            none
        },
    }
}

/// Writes the text of the metadata file that declares `extensions`.
pub fn write_prefix_file(extensions: &Vec<(String, String)>) -> (r: String)
    ensures
        r@ == prefix_file_text(pair_views(extensions@)),
{
    proof {
        reveal_strlit("=");
        reveal_strlit("\n");
    }
    let ghost list = pair_views(extensions@);
    let mut text = String::new();
    let mut i: usize = 0;
    assert(list.take(0) =~= Seq::empty());
    while i < extensions.len()
        invariant
            i <= extensions@.len(),
            list == pair_views(extensions@),
            "="@ == seq!['='],
            "\n"@ == seq!['\n'],
            text@ == prefix_file_text(list.take(i as int)),
        decreases extensions@.len() - i,
    {
        assert(list.take(i + 1).drop_last() =~= list.take(i as int));
        assert(list.take(i + 1).last() == list[i as int]);
        text.append(extensions[i].0.as_str());
        text.append("=");
        text.append(extensions[i].1.as_str());
        text.append("\n");
        i += 1;
    }
    assert(list.take(i as int) =~= list);
    text
}

impl PBO {
    /// Builds the archive that a directory stands for. `root_name` is the name
    /// of the root directory; `listing` holds, for each file below the root,
    /// its path relative to the root with `/` between the components, and its
    /// content.
    pub fn from_directory(root_name: &str, listing: &Vec<(String, Vec<u8>)>) -> (r: PBO)
        ensures
            r@ == projected(root_name@, file_views(listing@)),
    {
        let ghost files = file_views(listing@);
        let mut archive = PBO::new();
        let mut i: usize = 0;
        assert(files.take(0) =~= Seq::empty());
        while i < listing.len()
            invariant
                i <= listing@.len(),
                files == file_views(listing@),
                archive@ == gathered(files.take(i as int)),
            decreases listing@.len() - i,
        {
            assert(files.take(i + 1).drop_last() =~= files.take(i as int));
            assert(files.take(i + 1).last() == files[i as int]);
            proof {
                reveal_strlit("\\");
            }
            let name = replace_char(listing[i].0.as_str(), '/', "\\");
            if names_prefix_file(name.as_str()) {
                let pairs = read_prefix_file(&listing[i].1);
                archive = with_pairs(archive, &pairs);
            } else {
                archive = archive.with_file(name, slice_to_vec(listing[i].1.as_slice()));
            }
            i += 1;
        }
        assert(files.take(i as int) =~= files);
        let prefix = String::from_str("prefix");
        match position(archive.header_extensions(), &prefix) {
            Some(k) => {
                assert(archive@.extensions[k as int].0 == prefix_key());
                archive
            },
            None => {
                assert(!has_key(archive@.extensions, prefix_key()));
                archive.with_extension(prefix, String::from_str(root_name))
            },
        }
    }

    /// The listing that the archive unpacks to: for each file its path below
    /// the root, with `/` between the components, and its content. Where the
    /// archive has metadata, a metadata file that declares it comes first.
    pub fn unpack(&self) -> (r: Vec<(String, Vec<u8>)>)
        ensures
            file_views(r@) == unpacked(self@),
    {
        let mut out: Vec<(String, Vec<u8>)> = Vec::new();
        let extensions = self.header_extensions();
        if extensions.len() > 0 {
            let text = write_prefix_file(extensions);
            out.push(
                (String::from_str("$PBOPREFIX$"), slice_to_vec(text.as_str().as_bytes())),
            );
        }
        let ghost first = file_views(out@);
        let files = self.files();
        let ghost list = self@.files;
        let mut i: usize = 0;
        assert(first + list.take(0).map_values(
            |f: (Seq<char>, Seq<u8>)| (directory_path(f.0), f.1),
        ) =~= first);
        while i < files.len()
            invariant
                i <= files@.len(),
                list == file_views(files@),
                file_views(out@) == first + list.take(i as int).map_values(
                    |f: (Seq<char>, Seq<u8>)| (directory_path(f.0), f.1),
                ),
            decreases files@.len() - i,
        {
            proof {
                reveal_strlit("/");
            }
            let path = replace_char(files[i].0.as_str(), '\\', "/");
            let data = slice_to_vec(files[i].1.as_slice());
            proof {
                let each = |f: (Seq<char>, Seq<u8>)| (directory_path(f.0), f.1);
                assert(list.take(i + 1).map_values(each) =~= list.take(i as int).map_values(
                    each,
                ).push(each(list[i as int])));
                assert(file_views(out@.push((path, data))) =~= file_views(out@).push(
                    (path@, data@),
                ));
            }
            out.push((path, data));
            i += 1;
        }
        assert(list.take(i as int) =~= list);
        out
    }
}

/// The archive with each pair of `pairs` put in turn.
fn with_pairs(archive: PBO, pairs: &Vec<(String, String)>) -> (r: PBO)
    ensures
        r@.files == archive@.files,
        r@.headers == archive@.headers,
        r@.extensions == put_all(archive@.extensions, pair_views(pairs@)),
{
    let ghost list = pair_views(pairs@);
    let ghost start = archive@;
    let mut archive = archive;
    let mut i: usize = 0;
    assert(list.take(0) =~= Seq::empty());
    while i < pairs.len()
        invariant
            i <= pairs@.len(),
            list == pair_views(pairs@),
            archive@.files == start.files,
            archive@.headers == start.headers,
            archive@.extensions == put_all(start.extensions, list.take(i as int)),
        decreases pairs@.len() - i,
    {
        assert(list.take(i + 1).drop_last() =~= list.take(i as int));
        assert(list.take(i + 1).last() == list[i as int]);
        archive = archive.with_extension(pairs[i].0.clone(), pairs[i].1.clone());
        i += 1;
    }
    assert(list.take(i as int) =~= list);
    archive
}

} // verus!
