//! What holds between writing an archive and reading it back.

use crate::assoc::{
    as_map, has_key, index_of, keys_unique, lemma_collect_of_unique, lemma_has_first,
    lemma_same_entries, lemma_unique_index, lemma_without_key, without_key,
};
use crate::error::Error;
use crate::order::{
    arranged, lemma_sort_order, name_le, names_of, permutes, sort_order, sorted_by_name,
};
use crate::digest::sha1_digest;
use crate::pbo::{
    archive_body, archive_bytes, encodable, end_header, header_bytes, header_table, marker_header, named,
    pair_bytes, pairs_bytes, parse_archive, parse_extensions, parse_header, parse_headers,
    parse_pairs, parse_payloads, payload_block, prefix_key, stored_header, written_pairs,
    ArchiveView, HeaderView,
};
use crate::wire::{lemma_parse_text_bytes, lemma_word_at, terminable, text_bytes, u32_le};
use vstd::prelude::*;
use vstd::utf8::encode_utf8;

verus! {

/// A text that can stand as a name or a key: it is not empty, and a
/// null-terminated string can hold it.
pub open spec fn nameable(t: Seq<char>) -> bool {
    t.len() > 0 && terminable(t)
}

/// Every name of `files` can stand in a header.
pub open spec fn names_storable(files: Seq<(Seq<char>, Seq<u8>)>) -> bool {
    forall|i: int| 0 <= i < files.len() ==> nameable((#[trigger] files[i]).0)
}

/// Every pair of `pairs` can stand in a metadata block.
pub open spec fn pairs_storable(pairs: Seq<(Seq<char>, Seq<char>)>) -> bool {
    forall|i: int|
        0 <= i < pairs.len() ==> nameable((#[trigger] pairs[i]).0) && terminable(pairs[i].1)
}

/// The headers that `files` are written with.
pub open spec fn stored_headers(files: Seq<(Seq<char>, Seq<u8>)>) -> Seq<HeaderView> {
    files.map_values(|f: (Seq<char>, Seq<u8>)| stored_header(f.0, f.1.len()))
}

/// The payloads of `files`.
pub open spec fn payloads_of(files: Seq<(Seq<char>, Seq<u8>)>) -> Seq<Seq<u8>> {
    files.map_values(|f: (Seq<char>, Seq<u8>)| f.1)
}

/// The empty text is written as its terminator alone.
pub proof fn lemma_empty_text_bytes()
    ensures
        text_bytes(Seq::empty()) == seq![0u8],
        terminable(Seq::empty()),
{
    assert(encode_utf8(Seq::<char>::empty()) =~= Seq::<u8>::empty());
    assert(text_bytes(Seq::empty()) =~= seq![0u8]);
}

/// A written header reads back as itself, whatever follows it.
pub proof fn lemma_parse_header_bytes(h: HeaderView, tail: Seq<u8>)
    requires
        terminable(h.filename),
    ensures
        parse_header(header_bytes(h) + tail) == Ok::<(HeaderView, nat), Error>(
            (h, header_bytes(h).len()),
        ),
{
    reveal(parse_header);
    let name = text_bytes(h.filename);
    let n = name.len() as int;
    let s = header_bytes(h) + tail;
    let words = u32_le(h.packing_method) + u32_le(h.original_size) + u32_le(h.reserved) + u32_le(
        h.timestamp,
    ) + u32_le(h.data_size);
    assert(s =~= name + (words + tail));
    lemma_parse_text_bytes(h.filename, words + tail);
    assert(s.subrange(n, n + 4) =~= u32_le(h.packing_method));
    assert(s.subrange(n + 4, n + 8) =~= u32_le(h.original_size));
    assert(s.subrange(n + 8, n + 12) =~= u32_le(h.reserved));
    assert(s.subrange(n + 12, n + 16) =~= u32_le(h.timestamp));
    assert(s.subrange(n + 16, n + 20) =~= u32_le(h.data_size));
    lemma_word_at(s, n, h.packing_method);
    lemma_word_at(s, n + 4, h.original_size);
    lemma_word_at(s, n + 8, h.reserved);
    lemma_word_at(s, n + 12, h.timestamp);
    lemma_word_at(s, n + 16, h.data_size);
}

/// The bytes of pairs are the bytes of the first pair and then those of the
/// others.
pub proof fn lemma_pairs_bytes_first(pairs: Seq<(Seq<char>, Seq<char>)>)
    requires
        pairs.len() > 0,
    ensures
        pairs_bytes(pairs) == pair_bytes(pairs[0]) + pairs_bytes(pairs.drop_first()),
{
    let each = |p: (Seq<char>, Seq<char>)| pair_bytes(p);
    assert(pairs.map_values(each).drop_first() =~= pairs.drop_first().map_values(each));
}

/// The bytes of a header table are the bytes of the first header and then
/// those of the others.
pub proof fn lemma_header_table_first(files: Seq<(Seq<char>, Seq<u8>)>)
    requires
        files.len() > 0,
    ensures
        header_table(files) == header_bytes(stored_header(files[0].0, files[0].1.len()))
            + header_table(files.drop_first()),
{
    let each = |f: (Seq<char>, Seq<u8>)| header_bytes(stored_header(f.0, f.1.len()));
    assert(files.map_values(each).drop_first() =~= files.drop_first().map_values(each));
}

/// The payload block is the first payload and then the others.
pub proof fn lemma_payload_block_first(files: Seq<(Seq<char>, Seq<u8>)>)
    requires
        files.len() > 0,
    ensures
        payload_block(files) == files[0].1 + payload_block(files.drop_first()),
{
    let each = |f: (Seq<char>, Seq<u8>)| f.1;
    assert(files.map_values(each).drop_first() =~= files.drop_first().map_values(each));
}

/// Written pairs with the empty key behind them read back as themselves,
/// whatever follows.
pub proof fn lemma_parse_pairs_bytes(pairs: Seq<(Seq<char>, Seq<char>)>, tail: Seq<u8>)
    requires
        pairs_storable(pairs),
    ensures
        parse_pairs(pairs_bytes(pairs) + seq![0u8] + tail) == Ok::<
            (Seq<(Seq<char>, Seq<char>)>, nat),
            Error,
        >((pairs, pairs_bytes(pairs).len() + 1)),
    decreases pairs.len(),
{
    let s = pairs_bytes(pairs) + seq![0u8] + tail;
    if pairs.len() == 0 {
        assert(pairs.map_values(|p: (Seq<char>, Seq<char>)| pair_bytes(p)) =~= Seq::empty());
        lemma_empty_text_bytes();
        lemma_parse_text_bytes(Seq::empty(), tail);
        assert(s =~= text_bytes(Seq::empty()) + tail);
        assert(pairs =~= Seq::empty());
    } else {
        let key = pairs[0].0;
        let value = pairs[0].1;
        let others = pairs.drop_first();
        let kn = text_bytes(key).len();
        let vn = text_bytes(value).len();
        let more = pairs_bytes(others) + seq![0u8] + tail;
        lemma_pairs_bytes_first(pairs);
        assert(s =~= text_bytes(key) + (text_bytes(value) + more));
        lemma_parse_text_bytes(key, text_bytes(value) + more);
        assert(s.skip(kn as int) =~= text_bytes(value) + more);
        lemma_parse_text_bytes(value, more);
        assert(s.skip((kn + vn) as int) =~= more);
        assert(pairs_storable(others)) by {
            assert forall|i: int| 0 <= i < others.len() implies nameable(
                (#[trigger] others[i]).0,
            ) && terminable(others[i].1) by {
                assert(others[i] == pairs[i + 1]);
            }
        }
        lemma_parse_pairs_bytes(others, tail);
        assert(seq![(key, value)] + others =~= pairs);
    }
}

/// A written header table with its end reads back as the headers that were
/// written, whatever follows.
pub proof fn lemma_parse_header_table(files: Seq<(Seq<char>, Seq<u8>)>, tail: Seq<u8>)
    requires
        names_storable(files),
    ensures
        parse_headers(header_table(files) + header_bytes(end_header()) + tail) == Ok::<
            (Seq<HeaderView>, nat),
            Error,
        >((stored_headers(files), header_table(files).len() + header_bytes(end_header()).len())),
    decreases files.len(),
{
    let s = header_table(files) + header_bytes(end_header()) + tail;
    lemma_empty_text_bytes();
    if files.len() == 0 {
        assert(files.map_values(
            |f: (Seq<char>, Seq<u8>)| header_bytes(stored_header(f.0, f.1.len())),
        ) =~= Seq::empty());
        assert(s =~= header_bytes(end_header()) + tail);
        lemma_parse_header_bytes(end_header(), tail);
        assert(stored_headers(files) =~= Seq::empty());
    } else {
        let first = stored_header(files[0].0, files[0].1.len());
        let others = files.drop_first();
        let more = header_table(others) + header_bytes(end_header()) + tail;
        lemma_header_table_first(files);
        assert(s =~= header_bytes(first) + more);
        lemma_parse_header_bytes(first, more);
        assert(s.skip(header_bytes(first).len() as int) =~= more);
        assert(names_storable(others)) by {
            assert forall|i: int| 0 <= i < others.len() implies nameable(
                (#[trigger] others[i]).0,
            ) by {
                assert(others[i] == files[i + 1]);
            }
        }
        lemma_parse_header_table(others, tail);
        assert(seq![first] + stored_headers(others) =~= stored_headers(files));
    }
}

/// A written payload block reads back as the payloads that were written,
/// whatever follows.
pub proof fn lemma_parse_payload_block(files: Seq<(Seq<char>, Seq<u8>)>, tail: Seq<u8>)
    requires
        encodable(files),
    ensures
        parse_payloads(payload_block(files) + tail, stored_headers(files)) == Ok::<
            (Seq<Seq<u8>>, nat),
            Error,
        >((payloads_of(files), payload_block(files).len())),
    decreases files.len(),
{
    let s = payload_block(files) + tail;
    if files.len() == 0 {
        assert(files.map_values(|f: (Seq<char>, Seq<u8>)| f.1) =~= Seq::empty());
        assert(payloads_of(files) =~= Seq::empty());
    } else {
        let others = files.drop_first();
        let more = payload_block(others) + tail;
        lemma_payload_block_first(files);
        assert(s =~= files[0].1 + more);
        assert(s.take(files[0].1.len() as int) =~= files[0].1);
        assert(s.skip(files[0].1.len() as int) =~= more);
        assert(stored_headers(files).drop_first() =~= stored_headers(others));
        assert(encodable(others)) by {
            assert forall|i: int| 0 <= i < others.len() implies (#[trigger] others[i]).1.len()
                <= u32::MAX by {
                assert(others[i] == files[i + 1]);
            }
        }
        lemma_parse_payload_block(others, tail);
        assert(seq![files[0].1] + payloads_of(others) =~= payloads_of(files));
    }
}

/// The entries of a list arranged by a permutation are the entries of the
/// list, and no key comes twice where none did.
pub proof fn lemma_arranged<V>(list: Seq<(Seq<char>, V)>, order: Seq<int>)
    requires
        permutes(order, list.len()),
    ensures
        arranged(list, order).len() == list.len(),
        forall|e: (Seq<char>, V)| #[trigger] arranged(list, order).contains(e) <==> list.contains(e),
        keys_unique(list) ==> keys_unique(arranged(list, order)),
{
    let r = arranged(list, order);
    assert forall|e: (Seq<char>, V)| #[trigger] r.contains(e) <==> list.contains(e) by {
        if r.contains(e) {
            let i = choose|i: int| 0 <= i < r.len() && r[i] == e;
            assert(list[order[i]] == e);
        }
        if list.contains(e) {
            let j = choose|j: int| 0 <= j < list.len() && list[j] == e;
            assert(order.contains(j));
            let i = choose|i: int| 0 <= i < order.len() && order[i] == j;
            assert(r[i] == e);
        }
    }
    if keys_unique(list) {
        assert forall|i: int, j: int| 0 <= i < j < r.len() implies r[i].0 != r[j].0 by {
            assert(order[i] != order[j]);
            if order[i] < order[j] {
                assert(list[order[i]].0 != list[order[j]].0);
            } else {
                assert(list[order[j]].0 != list[order[i]].0);
            }
        }
    }
}

/// Sorting by name keeps the entries and puts every name in front of the
/// names that come behind it without regard to case.
pub proof fn lemma_sorted_by_name<V>(list: Seq<(Seq<char>, V)>)
    ensures
        sorted_by_name(list).len() == list.len(),
        forall|e: (Seq<char>, V)| #[trigger] sorted_by_name(list).contains(e) <==> list.contains(e),
        keys_unique(list) ==> keys_unique(sorted_by_name(list)),
        forall|i: int, j: int|
            0 <= i < j < list.len() ==> name_le(
                (#[trigger] sorted_by_name(list)[i]).0,
                (#[trigger] sorted_by_name(list)[j]).0,
            ),
{
    let names = names_of(list);
    let order = sort_order(names);
    lemma_sort_order(names);
    lemma_arranged(list, order);
    assert forall|i: int, j: int| 0 <= i < j < list.len() implies name_le(
        (#[trigger] sorted_by_name(list)[i]).0,
        (#[trigger] sorted_by_name(list)[j]).0,
    ) by {
        assert(name_le(names[order[i]], names[order[j]]));
    }
}

/// The pairs that are written are the pairs of the metadata, and no key comes
/// twice among them.
pub proof fn lemma_written_pairs(extensions: Seq<(Seq<char>, Seq<char>)>)
    requires
        keys_unique(extensions),
    ensures
        keys_unique(written_pairs(extensions)),
        forall|e: (Seq<char>, Seq<char>)|
            #[trigger] written_pairs(extensions).contains(e) <==> extensions.contains(e),
{
    let key = prefix_key();
    let others = without_key(extensions, key);
    let w = written_pairs(extensions);
    lemma_without_key(extensions, key);
    if has_key(extensions, key) {
        lemma_has_first(extensions, key);
        let p = index_of(extensions, key);
        let first = (key, extensions[p].1);
        assert(first == extensions[p]);
        assert(w =~= seq![first] + others);
        assert forall|e: (Seq<char>, Seq<char>)| #[trigger] w.contains(e) <==> extensions.contains(
            e,
        ) by {
            if w.contains(e) {
                let i = choose|i: int| 0 <= i < w.len() && w[i] == e;
                if i == 0 {
                    assert(extensions[p] == e);
                } else {
                    assert(others[i - 1] == e);
                    assert(others.contains(e));
                }
            }
            if extensions.contains(e) {
                let j = choose|j: int| 0 <= j < extensions.len() && extensions[j] == e;
                if e.0 == key {
                    lemma_unique_index(extensions, j);
                    assert(w[0] == e);
                } else {
                    assert(others.contains(e));
                    let i = choose|i: int| 0 <= i < others.len() && others[i] == e;
                    assert(w[i + 1] == e);
                }
            }
        }
        assert forall|i: int, j: int| 0 <= i < j < w.len() implies w[i].0 != w[j].0 by {
            assert(w[j] == others[j - 1]);
            assert(others.contains(others[j - 1]));
            if i > 0 {
                assert(w[i] == others[i - 1]);
            }
        }
    } else {
        assert(w == others);
        assert forall|e: (Seq<char>, Seq<char>)| #[trigger] w.contains(e) <==> extensions.contains(
            e,
        ) by {
            if extensions.contains(e) {
                let j = choose|j: int| 0 <= j < extensions.len() && extensions[j] == e;
                assert(extensions[j].0 == e.0);
            }
        }
    }
}

/// An archive whose names, keys and values can be stored and whose payloads
/// are short enough.
pub open spec fn storable(a: ArchiveView) -> bool {
    &&& a.wf()
    &&& encodable(a.files)
    &&& names_storable(a.files)
    &&& pairs_storable(a.extensions)
}

/// Reading what was written gives the archive back: the same payloads under
/// the same names, the same metadata, and a header table that lists the
/// entries sorted by name, each stored as it is with its payload's length.
/// This holds whatever follows the payloads, so it holds with the trailer.
pub proof fn lemma_archive_round_trip(a: ArchiveView, trailer: Seq<u8>)
    requires
        storable(a),
    ensures
        parse_archive(archive_body(a) + trailer) == Ok::<ArchiveView, Error>(
            ArchiveView {
                files: sorted_by_name(a.files),
                extensions: written_pairs(a.extensions),
                headers: stored_headers(sorted_by_name(a.files)),
            },
        ),
        as_map(sorted_by_name(a.files)) == as_map(a.files),
        as_map(written_pairs(a.extensions)) == as_map(a.extensions),
{
    let sorted = sorted_by_name(a.files);
    let written = written_pairs(a.extensions);
    let s = archive_body(a) + trailer;
    lemma_sorted_by_name(a.files);
    lemma_written_pairs(a.extensions);
    lemma_same_entries(sorted, a.files);
    lemma_same_entries(written, a.extensions);
    assert(names_storable(sorted) && encodable(sorted)) by {
        assert forall|i: int| 0 <= i < sorted.len() implies nameable((#[trigger] sorted[i]).0)
            && sorted[i].1.len() <= u32::MAX by {
            assert(sorted.contains(sorted[i]));
            let j = choose|j: int| 0 <= j < a.files.len() && a.files[j] == sorted[i];
            assert(nameable(a.files[j].0));
        }
    }
    assert(pairs_storable(written)) by {
        assert forall|i: int| 0 <= i < written.len() implies nameable((#[trigger] written[i]).0)
            && terminable(written[i].1) by {
            assert(written.contains(written[i]));
            let j = choose|j: int| 0 <= j < a.extensions.len() && a.extensions[j] == written[i];
            assert(nameable(a.extensions[j].0));
        }
    }
    let marker = header_bytes(marker_header());
    let block = pairs_bytes(written) + seq![0u8];
    let table = header_table(sorted) + header_bytes(end_header());
    let payloads = payload_block(sorted) + trailer;
    lemma_empty_text_bytes();
    assert(s =~= marker + (block + (table + payloads)));
    lemma_parse_header_bytes(marker_header(), block + (table + payloads));
    assert(s.skip(marker.len() as int) =~= pairs_bytes(written) + seq![0u8] + (table + payloads));
    lemma_parse_pairs_bytes(written, table + payloads);
    assert(Seq::<(Seq<char>, Seq<char>)>::empty() + written =~= written);
    let en = marker.len() + block.len();
    assert(parse_extensions(s) == Ok::<(Seq<(Seq<char>, Seq<char>)>, nat), Error>((written, en)));
    assert(s.skip(en as int) =~= header_table(sorted) + header_bytes(end_header()) + payloads);
    lemma_parse_header_table(sorted, payloads);
    let hn = table.len();
    assert(s.skip((en + hn) as int) =~= payload_block(sorted) + trailer);
    lemma_parse_payload_block(sorted, trailer);
    assert(named(stored_headers(sorted), payloads_of(sorted)) =~= sorted);
    lemma_collect_of_unique(sorted);
    lemma_collect_of_unique(written);
}

/// What was written, trailer and all, reads back as the archive that was
/// written.
pub proof fn lemma_written_archive_reads_back(a: ArchiveView)
    requires
        storable(a),
    ensures
        parse_archive(archive_bytes(a)) == Ok::<ArchiveView, Error>(
            ArchiveView {
                files: sorted_by_name(a.files),
                extensions: written_pairs(a.extensions),
                headers: stored_headers(sorted_by_name(a.files)),
            },
        ),
{
    let trailer = seq![0u8] + sha1_digest(archive_body(a));
    lemma_archive_round_trip(a, trailer);
    assert(archive_bytes(a) =~= archive_body(a) + trailer);
}

} // verus!
