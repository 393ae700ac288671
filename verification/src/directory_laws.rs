//! What holds between projecting a directory to an archive and unpacking the
//! archive again.

use crate::assoc::{has_key, keys_unique};
use crate::directory::{
    archive_name, directory_path, gathered, is_prefix_file, prefix_file_name, prefix_file_text,
    projected, unpacked,
};
use crate::pbo::prefix_key;
use vstd::prelude::*;
use vstd::utf8::encode_utf8;

verus! {

/// A path without a backslash.
pub open spec fn plain_path(path: Seq<char>) -> bool {
    forall|i: int| 0 <= i < path.len() ==> path[i] != '\\'
}

/// Every path of `listing` is without a backslash.
pub open spec fn plain_paths(listing: Seq<(Seq<char>, Seq<u8>)>) -> bool {
    forall|i: int| 0 <= i < listing.len() ==> plain_path((#[trigger] listing[i]).0)
}

/// The files of `listing` that are no metadata files, in their order.
pub open spec fn payload_files(listing: Seq<(Seq<char>, Seq<u8>)>) -> Seq<(Seq<char>, Seq<u8>)>
    decreases listing.len(),
{
    if listing.len() == 0 {
        Seq::empty()
    } else if is_prefix_file(archive_name(listing.last().0)) {
        payload_files(listing.drop_last())
    } else {
        payload_files(listing.drop_last()).push(listing.last())
    }
}

/// The files of `files`, each under its archive name.
pub open spec fn archived(files: Seq<(Seq<char>, Seq<u8>)>) -> Seq<(Seq<char>, Seq<u8>)> {
    files.map_values(|f: (Seq<char>, Seq<u8>)| (archive_name(f.0), f.1))
}

/// The entries of `files`, each under its path below the root.
pub open spec fn restored(files: Seq<(Seq<char>, Seq<u8>)>) -> Seq<(Seq<char>, Seq<u8>)> {
    files.map_values(|f: (Seq<char>, Seq<u8>)| (directory_path(f.0), f.1))
}

/// The path that stands for the archive name of a path without a backslash is
/// that path.
pub proof fn lemma_path_round_trip(path: Seq<char>)
    requires
        plain_path(path),
    ensures
        directory_path(archive_name(path)) == path,
{
    assert(directory_path(archive_name(path)) =~= path);
}

/// Every payload file of a listing is a file of the listing.
pub proof fn lemma_payload_files(listing: Seq<(Seq<char>, Seq<u8>)>)
    ensures
        forall|i: int|
            0 <= i < payload_files(listing).len() ==> listing.contains(
                #[trigger] payload_files(listing)[i],
            ),
    decreases listing.len(),
{
    let r = payload_files(listing);
    if listing.len() > 0 {
        let front = listing.drop_last();
        let inner = payload_files(front);
        lemma_payload_files(front);
        assert forall|i: int| 0 <= i < r.len() implies listing.contains(#[trigger] r[i]) by {
            if i < inner.len() {
                assert(front.contains(inner[i]));
                let j = choose|j: int| 0 <= j < front.len() && front[j] == inner[i];
                assert(listing[j] == r[i]);
            } else {
                assert(listing[listing.len() - 1] == r[i]);
            }
        }
    }
}

/// The payloads that a listing is gathered into are its payload files, each
/// under its archive name.
pub proof fn lemma_gathered_files(listing: Seq<(Seq<char>, Seq<u8>)>)
    requires
        keys_unique(listing),
        plain_paths(listing),
    ensures
        gathered(listing).files == archived(payload_files(listing)),
    decreases listing.len(),
{
    if listing.len() == 0 {
        assert(archived(payload_files(listing)) =~= Seq::empty());
    } else {
        let front = listing.drop_last();
        let last = listing.last();
        let name = archive_name(last.0);
        let before = archived(payload_files(front));
        assert(keys_unique(front) && plain_paths(front)) by {
            assert forall|i: int| 0 <= i < front.len() implies plain_path(
                (#[trigger] front[i]).0,
            ) by {
                assert(front[i] == listing[i]);
            }
        }
        lemma_gathered_files(front);
        if !is_prefix_file(name) {
            lemma_payload_files(front);
            assert(!has_key(before, name)) by {
                if has_key(before, name) {
                    let i = choose|i: int| 0 <= i < before.len() && before[i].0 == name;
                    let entry = payload_files(front)[i];
                    assert(front.contains(entry));
                    let j = choose|j: int| 0 <= j < front.len() && front[j] == entry;
                    assert(listing[j] == entry);
                    lemma_path_round_trip(entry.0);
                    lemma_path_round_trip(last.0);
                    assert(listing[j].0 == listing[listing.len() - 1].0);
                }
            }
            assert(before.push((name, last.1)) =~= archived(payload_files(front).push(last)));
        }
    }
}

/// Projecting a directory to an archive and unpacking the archive gives every
/// payload file back under its path and with its content, in the order of
/// the listing, behind one metadata file that declares the metadata. This
/// holds of listings whose paths differ and hold no backslash.
pub proof fn lemma_directory_round_trip(root: Seq<char>, listing: Seq<(Seq<char>, Seq<u8>)>)
    requires
        keys_unique(listing),
        plain_paths(listing),
    ensures
        projected(root, listing).files == archived(payload_files(listing)),
        restored(projected(root, listing).files) == payload_files(listing),
        unpacked(projected(root, listing)) == seq![
            (
                prefix_file_name(),
                encode_utf8(prefix_file_text(projected(root, listing).extensions)),
            ),
        ] + payload_files(listing),
{
    let a = projected(root, listing);
    let files = payload_files(listing);
    lemma_gathered_files(listing);
    lemma_payload_files(listing);
    assert(restored(archived(files)) =~= files) by {
        assert forall|i: int| 0 <= i < files.len() implies restored(archived(files))[i]
            == files[i] by {
            assert(listing.contains(files[i]));
            let j = choose|j: int| 0 <= j < listing.len() && listing[j] == files[i];
            assert(plain_path(listing[j].0));
            lemma_path_round_trip(files[i].0);
        }
    }
    let found = gathered(listing);
    if has_key(found.extensions, prefix_key()) {
        assert(a.extensions.len() > 0);
    } else {
        assert(a.extensions == found.extensions.push((prefix_key(), root)));
    }
}

} // verus!
