//! Laws of blob storage: what is stored where, what is listed, and what is remembered.
use crate::blobs::codec::{blob_bytes, blob_in};
use crate::blobs::storage::{are_hashes_of, file_of, files_without, is_file_of, lemma_cached_first, lemma_without_key, length_of, BlobFileView, BlobsView};
use crate::cache::{cached, capped, without, CachedView, EntriesView};
use crate::digest::{blake3_digest, hex_decoded, hex_text, hex_text_decodes, hex_text_tells_apart};
use crate::types::BlobView;
use vstd::prelude::*;
use vstd::utf8::encode_utf8;

verus! {

/// A new blob gets one more file, named by the hash of its content, in the directory named
/// by the first two characters of it; the files of all other blobs stay.
pub proof fn stored_blob_gets_a_file(
    s: BlobsView,
    content: Seq<u8>,
    content_type: Seq<char>,
    other: Seq<u8>,
)
    requires
        !s.has(blake3_digest(content)),
        blake3_digest(content).len() >= 1,
    ensures
        ({
            let hash = blake3_digest(content);
            let now = s.after_store(content, content_type);
            let n = s.files.len() as int;
            &&& now.files.len() == n + 1
            &&& forall|i: int| 0 <= i < n ==> #[trigger] now.files[i] == s.files[i]
            &&& now.files[n].name == hex_text(hash)
            &&& now.files[n].shard.len() == 2
            &&& now.files[n].shard[0] == now.files[n].name[0]
            &&& now.files[n].shard[1] == now.files[n].name[1]
            &&& now.files[n].bytes == blob_bytes(content, content_type)
            &&& other != hash ==> file_of(now.files, other) == file_of(s.files, other)
        }),
{
    let hash = blake3_digest(content);
    let now = s.after_store(content, content_type);
    assert(now.files.drop_last() =~= s.files);
    if other != hash {
        hex_text_tells_apart(hash, other);
    }
}

/// A file is that of a hash just if it is named by it, in its directory; the file of a hash
/// is found if there is one.
pub proof fn files_are_found_by_name(files: Seq<BlobFileView>, hash: Seq<u8>)
    ensures
        file_of(files, hash) is Some <==> exists|i: int|
            0 <= i < files.len() && (#[trigger] files[i]).name == hex_text(hash) && files[i].shard
                == hex_text(hash).subrange(0, 2),
        file_of(files, hash) matches Some(b) ==> exists|i: int|
            0 <= i < files.len() && (#[trigger] files[i]).name == hex_text(hash) && files[i].bytes
                == b,
    decreases files.len(),
{
    assert(hex_text(hash).take(2) == hex_text(hash).subrange(0, 2));
    if files.len() > 0 {
        let init = files.drop_last();
        files_are_found_by_name(init, hash);
        assert(files[files.len() - 1] == files.last());
        if file_of(init, hash) is Some {
            let i = choose|i: int|
                0 <= i < init.len() && (#[trigger] init[i]).name == hex_text(hash)
                    && init[i].shard == hex_text(hash).subrange(0, 2);
            assert(files[i] == init[i]);
            let b = file_of(init, hash)->0;
            let j = choose|j: int|
                0 <= j < init.len() && (#[trigger] init[j]).name == hex_text(hash)
                    && init[j].bytes == b;
            assert(files[j] == init[j]);
        }
        if exists|i: int|
            0 <= i < files.len() && (#[trigger] files[i]).name == hex_text(hash)
                && files[i].shard == hex_text(hash).subrange(0, 2) {
            let i = choose|i: int|
                0 <= i < files.len() && (#[trigger] files[i]).name == hex_text(hash)
                    && files[i].shard == hex_text(hash).subrange(0, 2);
            if i < init.len() {
                assert(init[i] == files[i]);
            }
        }
    }
}

/// A listing holds the hash of every file that is named by one, and nothing else.
pub proof fn every_blob_is_listed(files: Seq<BlobFileView>, hashes: Seq<crate::types::Hash>, h: crate::types::Hash)
    requires
        are_hashes_of(files, hashes),
    ensures
        hashes.len() <= files.len(),
        (exists|i: int| 0 <= i < files.len() && (#[trigger] files[i]).name == hex_text(h.0@))
            ==> exists|j: int| 0 <= j < hashes.len() && (#[trigger] hashes[j]).0@ == h.0@,
        forall|j: int|
            0 <= j < hashes.len() ==> exists|i: int|
                0 <= i < files.len() && hex_decoded(
                    encode_utf8((#[trigger] files[i]).name),
                    Ok((#[trigger] hashes[j]).0@),
                ),
    decreases files.len(),
{
    if files.len() > 0 {
        let init = files.drop_last();
        let f = files.last();
        assert(files[files.len() - 1] == f);
        let taken = hashes.len() > 0 && hex_decoded(encode_utf8(f.name), Ok(hashes.last().0@))
            && are_hashes_of(init, hashes.drop_last());
        let rest = if taken {
            hashes.drop_last()
        } else {
            hashes
        };
        every_blob_is_listed(init, rest, h);
        assert(forall|j: int| 0 <= j < rest.len() ==> #[trigger] rest[j] == hashes[j]);
        if exists|i: int| 0 <= i < files.len() && (#[trigger] files[i]).name == hex_text(h.0@) {
            let i = choose|i: int| 0 <= i < files.len() && (#[trigger] files[i]).name == hex_text(
                h.0@,
            );
            if i < init.len() {
                assert(init[i].name == hex_text(h.0@));
                let j = choose|j: int| 0 <= j < rest.len() && (#[trigger] rest[j]).0@ == h.0@;
                assert(hashes[j].0@ == h.0@);
            } else {
                hex_text_decodes(h.0@, Ok(h.0@));
                if taken {
                    hex_text_decodes(h.0@, Ok(hashes.last().0@));
                    assert(hashes[hashes.len() - 1].0@ == h.0@);
                } else {
                    assert(hex_decoded(encode_utf8(f.name), Ok(h.0@)));
                    assert(false);
                }
            }
        }
        assert forall|j: int| 0 <= j < hashes.len() implies exists|i: int|
            0 <= i < files.len() && hex_decoded(
                encode_utf8((#[trigger] files[i]).name),
                Ok((#[trigger] hashes[j]).0@),
            ) by {
            if j < rest.len() {
                assert(rest[j] == hashes[j]);
                let i = choose|i: int|
                    0 <= i < init.len() && hex_decoded(
                        encode_utf8((#[trigger] init[i]).name),
                        Ok((#[trigger] rest[j]).0@),
                    );
                assert(files[i] == init[i]);
            } else {
                assert(hashes[j] == hashes.last());
                assert(files[files.len() - 1] == f);
            }
        }
    }
}

/// The total size is that of all files together.
pub proof fn sizes_add_up(files: Seq<BlobFileView>)
    ensures
        length_of(files) == files.fold_left(0nat, |n: nat, f: BlobFileView| n + f.bytes.len()),
    decreases files.len(),
{
    reveal(Seq::fold_left);
    if files.len() > 0 {
        sizes_add_up(files.drop_last());
    }
}

/// A blob that is put into the cache comes first in it; only beyond the capacity the last
/// ones are given up, and no blob is held twice.
pub proof fn cache_remembers_the_latest(s: BlobsView, blob: BlobView)
    requires
        s.capacity >= 1,
    ensures
        ({
            let now = s.remembered(blob);
            &&& now.len() > 0
            &&& now.len() <= s.capacity
            &&& now[0] == (blob.hash, (0u64, blob.content, blob.content_type))
            &&& cached(now, blob.hash) == Some((0u64, blob.content, blob.content_type))
            &&& forall|i: int| 1 <= i < now.len() ==> (#[trigger] now[i]).0 != blob.hash
        }),
{
    let v: CachedView = (0u64, blob.content, blob.content_type);
    let all = seq![(blob.hash, v)] + without(s.cached, blob.hash);
    lemma_without_key(s.cached, blob.hash);
    assert forall|i: int| 1 <= i < all.len() implies (#[trigger] all[i]).0 != blob.hash by {
        assert(all[i] == without(s.cached, blob.hash)[i - 1]);
    }
    lemma_cached_first(all, blob.hash, v, all.len() as int);
    assert(all.take(all.len() as int) =~= all);
    if all.len() > s.capacity {
        lemma_cached_first(all, blob.hash, v, s.capacity as int);
    }
}

/// Reading a blob changes no file, and reading it again gives the same.
pub proof fn reading_again_gives_the_same(s: BlobsView, hash: Seq<u8>)
    requires
        s.capacity >= 1,
    ensures
        s.after_read(hash).files == s.files,
        s.after_read(hash).read(hash) == s.read(hash),
{
    match cached(s.cached, hash) {
        Some(v) => {
            let all = seq![(hash, v)] + without(s.cached, hash);
            lemma_without_key(s.cached, hash);
            assert forall|i: int| 1 <= i < all.len() implies (#[trigger] all[i]).0 != hash by {
                assert(all[i] == without(s.cached, hash)[i - 1]);
            }
            lemma_cached_first(all, hash, v, all.len() as int);
            assert(all.take(all.len() as int) =~= all);
        },
        None => {
            if let Ok(Some(blob)) = s.read(hash) {
                cache_remembers_the_latest(s, blob);
            }
        },
    }
}

/// Deleting a blob takes out its files and no others, in order.
pub proof fn deletion_takes_out_its_files(files: Seq<BlobFileView>, hash: Seq<u8>)
    ensures
        files_without(files, hash) == files.filter(
            |f: BlobFileView|
                !(f.name == hex_text(hash) && f.shard == hex_text(hash).subrange(0, 2)),
        ),
    decreases files.len(),
{
    let p = |f: BlobFileView|
        !(f.name == hex_text(hash) && f.shard == hex_text(hash).subrange(0, 2));
    assert(hex_text(hash).take(2) == hex_text(hash).subrange(0, 2));
    reveal(Seq::filter);
    if files.len() > 0 {
        deletion_takes_out_its_files(files.drop_last(), hash);
        assert(p(files.last()) == !is_file_of(files.last(), hash));
    } else {
        assert(files.filter(p) =~= files);
    }
}

/// Entries are found under their key, and a cache that is too full gives up its last ones.
pub proof fn entries_are_found_by_key(entries: EntriesView, key: Seq<u8>, capacity: nat)
    ensures
        cached(entries, key) is None <==> forall|i: int|
            0 <= i < entries.len() ==> (#[trigger] entries[i]).0 != key,
        without(entries, key) == entries.filter(|e: (Seq<u8>, CachedView)| e.0 != key),
        entries.len() <= capacity ==> capped(entries, capacity) == entries,
        entries.len() > capacity ==> capped(entries, capacity).len() == capacity && forall|i: int|
            0 <= i < capacity ==> #[trigger] capped(entries, capacity)[i] == entries[i],
    decreases entries.len(),
{
    reveal(Seq::filter);
    let p = |e: (Seq<u8>, CachedView)| e.0 != key;
    if entries.len() > 0 {
        let init = entries.drop_last();
        entries_are_found_by_key(init, key, capacity);
        assert(entries[entries.len() - 1] == entries.last());
        assert(forall|i: int| 0 <= i < init.len() ==> #[trigger] init[i] == entries[i]);
        assert(forall|i: int| 0 <= i < init.len() ==> #[trigger] entries[i] == init[i]);
    } else {
        assert(entries.filter(p) =~= entries);
    }
}

/// A blob is read from the cache, else from its file; a damaged file is told, and without
/// either there is no blob.
pub proof fn blobs_are_read_from_cache_or_file(s: BlobsView, hash: Seq<u8>)
    ensures
        cached(s.cached, hash) matches Some(v) ==> (s.read(hash) matches Ok(Some(blob))
            && blob.content == v.1 && blob.content_type == v.2 && blob.hash == hash),
        cached(s.cached, hash) is None && file_of(s.files, hash) is None ==> (s.read(
            hash,
        ) matches Ok(None)) && !s.has(hash),
        cached(s.cached, hash) is None && file_of(s.files, hash) is Some ==> s.has(hash) && (
        match blob_in(file_of(s.files, hash)->0, hash) {
            Ok(blob) => s.read(hash) matches Ok(Some(x)) && x == blob,
            Err(e) => s.read(hash) matches Err(x) && x == e,
        }),
{
}

} // verus!
