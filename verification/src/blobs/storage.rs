//! Blob storage implementation.
use crate::blobs::codec::{blob_bytes, blob_fits, blob_has_its_hash, blob_in, blob_round_trip, read_blob, write_blob};
use crate::bytes::copied;
use crate::cache::{cached, capped, lemma_cached_entry, lemma_without_subset, without, Cache, EntriesView};
use crate::digest::{blake3_digest, hex_decoded, hex_text, hex_text_tells_apart};
use crate::error::{ErrorView, StoreError};
use crate::text::same_text;
use crate::types::{Blob, BlobView};
use vstd::prelude::*;
use vstd::slice::*;
use vstd::string::*;

verus! {

/// A file below the blob directory: the directory that it stands in, its name and bytes.
#[derive(Debug)]
pub struct BlobFile {
    pub shard: String,
    pub name: String,
    pub bytes: Vec<u8>,
}

/// A blob file as a mathematical value.
pub struct BlobFileView {
    pub shard: Seq<char>,
    pub name: Seq<char>,
    pub bytes: Seq<u8>,
}

impl View for BlobFile {
    type V = BlobFileView;

    open spec fn view(&self) -> BlobFileView {
        BlobFileView { shard: self.shard@, name: self.name@, bytes: self.bytes@ }
    }
}

/// The files of a blob directory.
pub open spec fn files_of(files: Seq<BlobFile>) -> Seq<BlobFileView> {
    files.map_values(|f: BlobFile| f@)
}

/// Whether no two files have the same path.
pub open spec fn paths_distinct(files: Seq<BlobFileView>) -> bool {
    forall|i: int, j: int|
        0 <= i < j < files.len() ==> (#[trigger] files[i]).shard != (#[trigger] files[j]).shard
            || files[i].name != files[j].name
}

/// Whether a file is the one of a hash: it has the hash's hex form as its name and stands
/// in the directory named by the first two characters of it.
pub open spec fn is_file_of(f: BlobFileView, hash: Seq<u8>) -> bool {
    f.shard == hex_text(hash).take(2) && f.name == hex_text(hash)
}

/// The bytes of the file of a hash.
pub open spec fn file_of(files: Seq<BlobFileView>, hash: Seq<u8>) -> Option<Seq<u8>>
    decreases files.len(),
{
    if files.len() == 0 {
        None
    } else if is_file_of(files.last(), hash) {
        Some(files.last().bytes)
    } else {
        file_of(files.drop_last(), hash)
    }
}

/// The files without the one of a hash.
pub open spec fn files_without(files: Seq<BlobFileView>, hash: Seq<u8>) -> Seq<BlobFileView>
    decreases files.len(),
{
    if files.len() == 0 {
        files
    } else if is_file_of(files.last(), hash) {
        files_without(files.drop_last(), hash)
    } else {
        files_without(files.drop_last(), hash).push(files.last())
    }
}

/// Whether a list holds the hashes that files are named by, in the order of the files.
pub open spec fn are_hashes_of(files: Seq<BlobFileView>, hashes: Seq<crate::types::Hash>) -> bool
    decreases files.len(),
{
    if files.len() == 0 {
        hashes.len() == 0
    } else {
        ||| hashes.len() > 0 && hex_decoded(
            vstd::utf8::encode_utf8(files.last().name),
            Ok(hashes.last().0@),
        ) && are_hashes_of(files.drop_last(), hashes.drop_last())
        ||| (forall|h: crate::types::Hash|
            !#[trigger] hex_decoded(vstd::utf8::encode_utf8(files.last().name), Ok(h.0@)))
            && are_hashes_of(files.drop_last(), hashes)
    }
}

/// The total length of files.
pub open spec fn length_of(files: Seq<BlobFileView>) -> nat
    decreases files.len(),
{
    if files.len() == 0 {
        0
    } else {
        length_of(files.drop_last()) + files.last().bytes.len()
    }
}

/// A blob storage as a mathematical value: its files, and what its cache holds.
pub struct BlobsView {
    pub files: Seq<BlobFileView>,
    pub cached: EntriesView,
    pub capacity: nat,
}

impl BlobsView {
    /// Whether there is a blob for a hash.
    pub open spec fn has(self, hash: Seq<u8>) -> bool {
        cached(self.cached, hash) is Some || file_of(self.files, hash) is Some
    }

    /// What a read of a blob gives: what is cached, else what the file holds.
    pub open spec fn read(self, hash: Seq<u8>) -> Result<Option<BlobView>, ErrorView> {
        match cached(self.cached, hash) {
            Some(v) => Ok(Some(BlobView { hash, content: v.1, content_type: v.2 })),
            None => match file_of(self.files, hash) {
                None => Ok(None),
                Some(b) => match blob_in(b, hash) {
                    Ok(blob) => Ok(Some(blob)),
                    Err(e) => Err(e),
                },
            },
        }
    }

    /// What the cache holds once a blob was put into it.
    pub open spec fn remembered(self, blob: BlobView) -> EntriesView {
        capped(
            seq![(blob.hash, (0u64, blob.content, blob.content_type))] + without(
                self.cached,
                blob.hash,
            ),
            self.capacity,
        )
    }

    /// The storage once a blob was read.
    pub open spec fn after_read(self, hash: Seq<u8>) -> BlobsView {
        match cached(self.cached, hash) {
            Some(v) => BlobsView {
                cached: seq![(hash, v)] + without(self.cached, hash),
                ..self
            },
            None => match self.read(hash) {
                Ok(Some(blob)) => BlobsView { cached: self.remembered(blob), ..self },
                _ => self,
            },
        }
    }

    /// The storage once a blob was stored.
    pub open spec fn after_store(self, content: Seq<u8>, content_type: Seq<char>) -> BlobsView {
        let hash = blake3_digest(content);
        if self.has(hash) {
            self
        } else {
            BlobsView {
                files: self.files.push(
                    BlobFileView {
                        shard: hex_text(hash).take(2),
                        name: hex_text(hash),
                        bytes: blob_bytes(content, content_type),
                    },
                ),
                cached: self.remembered(BlobView { hash, content, content_type }),
                ..self
            }
        }
    }

    /// The storage once a blob was deleted.
    pub open spec fn after_delete(self, hash: Seq<u8>) -> BlobsView {
        BlobsView {
            files: files_without(self.files, hash),
            cached: without(self.cached, hash),
            ..self
        }
    }

    /// Whether no two files have one path, and what is cached under a hash has that hash.
    pub open spec fn wf(self) -> bool {
        &&& paths_distinct(self.files)
        &&& self.capacity >= 1
        &&& forall|i: int|
            0 <= i < self.cached.len() ==> blake3_digest((#[trigger] self.cached[i]).1.1)
                == self.cached[i].0
    }
}

/// Content-addressed blob storage.
pub struct BlobStorage {
    files: Vec<BlobFile>,
    cache: Cache,
}

impl View for BlobStorage {
    type V = BlobsView;

    closed spec fn view(&self) -> BlobsView {
        BlobsView {
            files: files_of(self.files@),
            cached: self.cache.entries(),
            capacity: self.cache.capacity(),
        }
    }
}

impl BlobStorage {
    /// A blob storage with the given files, and a cache for `cache_size` blobs.
    pub fn new(files: Vec<BlobFile>, cache_size: usize) -> (r: Self)
        requires
            paths_distinct(files_of(files@)),
        ensures
            r@.wf(),
            r@.files == files_of(files@),
            r@.cached == EntriesView::empty(),
            r@.capacity == (if cache_size == 0 {
                1
            } else {
                cache_size as int
            }),
    {
        BlobStorage { files, cache: Cache::new(cache_size) }
    }

    fn find(&self, hash: &crate::types::Hash) -> (r: Option<usize>)
        requires
            paths_distinct(files_of(self.files@)),
        ensures
            match r {
                Some(i) => i < self.files@.len() && is_file_of(self.files@[i as int]@, hash.0@)
                    && file_of(self@.files, hash.0@) == Some(self.files@[i as int].bytes@),
                None => file_of(self@.files, hash.0@) is None && forall|i: int|
                    0 <= i < self.files@.len() ==> !is_file_of(
                        (#[trigger] self.files@[i])@,
                        hash.0@,
                    ),
            },
    {
        let shard = hash.shard_prefix();
        let name = hash.to_hex();
        let mut i: usize = 0;
        while i < self.files.len()
            invariant
                shard@ == hex_text(hash.0@).take(2),
                name@ == hex_text(hash.0@),
                paths_distinct(files_of(self.files@)),
                i <= self.files@.len(),
                forall|j: int|
                    0 <= j < i ==> !is_file_of((#[trigger] self.files@[j])@, hash.0@),
            decreases self.files@.len() - i,
        {
            if same_text(self.files[i].shard.as_str(), shard.as_str()) && same_text(
                self.files[i].name.as_str(),
                name.as_str(),
            ) {
                proof {
                    lemma_file_at(files_of(self.files@), i as int, hash.0@);
                }
                return Some(i);
            }
            i += 1;
        }
        proof {
            let fs = files_of(self.files@);
            assert forall|j: int| 0 <= j < fs.len() implies !is_file_of(
                #[trigger] fs[j],
                hash.0@,
            ) by {
                assert(fs[j] == self.files@[j]@);
            }
            lemma_no_file(fs, hash.0@);
        }
        None
    }

    /// Store a blob, returning its hash.
    ///
    /// If the blob already exists, this is a no-op and returns the existing hash.
    pub fn store(&mut self, content: &[u8], content_type: &str) -> (hash: crate::types::Hash)
        requires
            old(self)@.wf(),
        ensures
            final(self)@.wf(),
            hash.0@ == blake3_digest(content@),
            final(self)@ == old(self)@.after_store(content@, content_type@),
    {
        let hash = crate::types::Hash::from_bytes(content);
        if self.contains(&hash) {
            return hash;
        }
        let ghost before = self@;
        let file = BlobFile {
            shard: hash.shard_prefix(),
            name: hash.to_hex(),
            bytes: write_blob(content, content_type),
        };
        let ghost added = file@;
        self.files.push(file);
        self.remember(&hash, content, content_type);
        proof {
            assert(files_of(self.files@) =~= before.files.push(added));
            lemma_paths_push(before.files, added, hash.0@);
        }
        hash
    }

    fn remember(&mut self, hash: &crate::types::Hash, content: &[u8], content_type: &str)
        requires
            blake3_digest(content@) == hash.0@,
            forall|i: int|
                0 <= i < old(self)@.cached.len() ==> blake3_digest(
                    (#[trigger] old(self)@.cached[i]).1.1,
                ) == old(self)@.cached[i].0,
        ensures
            final(self)@.files == old(self)@.files,
            final(self).files == old(self).files,
            final(self)@.capacity == old(self)@.capacity,
            final(self)@.cached == old(self)@.remembered(
                BlobView { hash: hash.0@, content: content@, content_type: content_type@ },
            ),
            forall|i: int|
                0 <= i < final(self)@.cached.len() ==> blake3_digest(
                    (#[trigger] final(self)@.cached[i]).1.1,
                ) == final(self)@.cached[i].0,
    {
        let ghost before = self@;
        let key = slice_to_vec(hash.0.as_slice());
        let value = (0u64, slice_to_vec(content), content_type.to_owned());
        self.cache.put(key, value);
        proof {
            let rest = without(before.cached, hash.0@);
            lemma_without_subset(before.cached, hash.0@);
            let all = seq![(hash.0@, (0u64, content@, content_type@))] + rest;
            assert forall|i: int| 0 <= i < self@.cached.len() implies blake3_digest(
                (#[trigger] self@.cached[i]).1.1,
            ) == self@.cached[i].0 by {
                assert(self@.cached[i] == all[i]);
                if i > 0 {
                    assert(all[i] == rest[i - 1]);
                    assert(before.cached.contains(rest[i - 1]));
                    let k = choose|k: int|
                        0 <= k < before.cached.len() && before.cached[k] == rest[i - 1];
                    assert(blake3_digest(before.cached[k].1.1) == before.cached[k].0);
                }
            }
        }
    }

    /// Get a blob by its hash.
    pub fn get(&mut self, hash: &crate::types::Hash) -> (r: Result<Option<Blob>, StoreError>)
        requires
            old(self)@.wf(),
        ensures
            final(self)@.wf(),
            final(self)@ == old(self)@.after_read(hash.0@),
            match r {
                Ok(Some(blob)) => old(self)@.read(hash.0@) == Ok::<
                    Option<BlobView>,
                    ErrorView,
                >(Some(blob@)) && blake3_digest(blob.content@) == hash.0@,
                Ok(None) => old(self)@.read(hash.0@) == Ok::<Option<BlobView>, ErrorView>(None),
                Err(e) => old(self)@.read(hash.0@) == Err::<Option<BlobView>, ErrorView>(e@),
            },
    {
        let ghost before = self@;
        let key = slice_to_vec(hash.0.as_slice());
        match self.cache.get(&key) {
            Some(v) => {
                proof {
                    lemma_cached_entry(before.cached, hash.0@);
                    let found = (hash.0@, (v.0, v.1@, v.2@));
                    let k = choose|k: int|
                        0 <= k < before.cached.len() && before.cached[k] == found;
                    assert(blake3_digest(before.cached[k].1.1) == before.cached[k].0);
                    let rest = without(before.cached, hash.0@);
                    lemma_without_subset(before.cached, hash.0@);
                    assert forall|i: int| 0 <= i < self@.cached.len() implies blake3_digest(
                        (#[trigger] self@.cached[i]).1.1,
                    ) == self@.cached[i].0 by {
                        if i > 0 {
                            assert(self@.cached[i] == rest[i - 1]);
                            assert(before.cached.contains(rest[i - 1]));
                            let q = choose|q: int|
                                0 <= q < before.cached.len() && before.cached[q] == rest[i - 1];
                            assert(blake3_digest(before.cached[q].1.1) == before.cached[q].0);
                        }
                    }
                }
                Ok(Some(Blob { hash: *hash, content: v.1, content_type: v.2 }))
            },
            None => {
                assert(self@ == before);
                match self.find(hash) {
                    None => Ok(None),
                    Some(i) => {
                        match read_blob(self.files[i].bytes.as_slice(), *hash) {
                            Err(e) => Err(e),
                            Ok(blob) => {
                                proof {
                                    blob_has_its_hash(self.files@[i as int].bytes@, hash.0@);
                                }
                                self.remember(
                                    hash,
                                    blob.content.as_slice(),
                                    blob.content_type.as_str(),
                                );
                                Ok(Some(blob))
                            },
                        }
                    },
                }
            },
        }
    }

    /// Check if a blob exists.
    pub fn contains(&self, hash: &crate::types::Hash) -> (r: bool)
        requires
            self@.wf(),
        ensures
            r == self@.has(hash.0@),
    {
        let key = slice_to_vec(hash.0.as_slice());
        if self.cache.contains(&key) {
            return true;
        }
        self.find(hash).is_some()
    }

    /// Delete a blob (for garbage collection). Returns whether there was a file.
    pub fn delete(&mut self, hash: &crate::types::Hash) -> (r: bool)
        requires
            old(self)@.wf(),
        ensures
            final(self)@.wf(),
            r == (file_of(old(self)@.files, hash.0@) is Some),
            final(self)@ == old(self)@.after_delete(hash.0@),
    {
        let ghost before = self@;
        let key = slice_to_vec(hash.0.as_slice());
        self.cache.pop(&key);
        proof {
            let rest = without(before.cached, hash.0@);
            lemma_without_subset(before.cached, hash.0@);
            assert forall|i: int| 0 <= i < rest.len() implies blake3_digest(
                (#[trigger] rest[i]).1.1,
            ) == rest[i].0 by {
                assert(before.cached.contains(rest[i]));
                let k = choose|k: int| 0 <= k < before.cached.len() && before.cached[k] == rest[i];
                assert(blake3_digest(before.cached[k].1.1) == before.cached[k].0);
            }
        }
        match self.find(hash) {
            None => {
                proof {
                    assert forall|j: int| 0 <= j < before.files.len() implies !is_file_of(
                        #[trigger] before.files[j],
                        hash.0@,
                    ) by {
                        assert(before.files[j] == self.files@[j]@);
                    }
                    lemma_without_none(before.files, hash.0@);
                }
                false
            },
            Some(i) => {
                self.files.remove(i);
                proof {
                    lemma_without_one(before.files, i as int, hash.0@);
                    assert(files_of(self.files@) =~= before.files.remove(i as int));
                }
                true
            },
        }
    }

    /// List all blob hashes: those that the names of the files give.
    pub fn list(&self) -> (r: Vec<crate::types::Hash>)
        ensures
            are_hashes_of(self@.files, r@),
    {
        let mut hashes: Vec<crate::types::Hash> = Vec::new();
        let ghost fs = files_of(self.files@);
        let mut i: usize = 0;
        assert(fs.take(0) =~= Seq::empty());
        while i < self.files.len()
            invariant
                fs == files_of(self.files@),
                i <= self.files@.len(),
                are_hashes_of(fs.take(i as int), hashes@),
            decreases self.files@.len() - i,
        {
            let ghost before = hashes@;
            proof {
                assert(fs.take(i + 1).drop_last() =~= fs.take(i as int));
                assert(fs.take(i + 1).last() == self.files@[i as int]@);
            }
            let ghost name = self.files@[i as int].name@;
            match crate::types::Hash::from_hex(self.files[i].name.as_str()) {
                Ok(h) => {
                    hashes.push(h);
                    assert(hashes@.drop_last() =~= before);
                },
                Err(e) => {
                    proof {
                        assert forall|h: crate::types::Hash| !#[trigger] hex_decoded(
                            vstd::utf8::encode_utf8(name),
                            Ok(h.0@),
                        ) by {
                            if hex_decoded(vstd::utf8::encode_utf8(name), Ok(h.0@)) {
                                assert(h.0@.len() == 32);
                            }
                        }
                    }
                },
            }
            i += 1;
        }
        assert(fs.take(i as int) =~= fs);
        hashes
    }

    /// Get total size of all blobs, as far as a `u64` holds it.
    pub fn total_size(&self) -> (n: u64)
        ensures
            n == (if length_of(self@.files) <= u64::MAX {
                length_of(self@.files) as int
            } else {
                u64::MAX as int
            }),
    {
        let mut total: u64 = 0;
        let ghost fs = files_of(self.files@);
        let mut i: usize = 0;
        assert(fs.take(0) =~= Seq::empty());
        while i < self.files.len()
            invariant
                fs == files_of(self.files@),
                i <= self.files@.len(),
                total == (if length_of(fs.take(i as int)) <= u64::MAX {
                    length_of(fs.take(i as int)) as int
                } else {
                    u64::MAX as int
                }),
            decreases self.files@.len() - i,
        {
            proof {
                assert(fs.take(i + 1).drop_last() =~= fs.take(i as int));
                assert(fs.take(i + 1).last() == self.files@[i as int]@);
            }
            total = total.saturating_add(self.files[i].bytes.len() as u64);
            i += 1;
        }
        assert(fs.take(i as int) =~= fs);
        total
    }

    /// The bytes of the file of a blob.
    pub fn file(&self, hash: &crate::types::Hash) -> (r: Option<Vec<u8>>)
        requires
            self@.wf(),
        ensures
            match r {
                Some(b) => file_of(self@.files, hash.0@) == Some(b@),
                None => file_of(self@.files, hash.0@) is None,
            },
    {
        match self.find(hash) {
            Some(i) => Some(copied(&self.files[i].bytes)),
            None => None,
        }
    }
}

proof fn lemma_file_at(fs: Seq<BlobFileView>, i: int, hash: Seq<u8>)
    requires
        paths_distinct(fs),
        0 <= i < fs.len(),
        is_file_of(fs[i], hash),
    ensures
        file_of(fs, hash) == Some(fs[i].bytes),
    decreases fs.len(),
{
    let last = fs.len() - 1;
    if i != last {
        assert(!is_file_of(fs[last], hash)) by {
            assert(fs[i].shard != fs[last].shard || fs[i].name != fs[last].name);
        }
        lemma_paths_init(fs);
        assert(fs.drop_last()[i] == fs[i]);
        lemma_file_at(fs.drop_last(), i, hash);
    }
}

proof fn lemma_paths_init(fs: Seq<BlobFileView>)
    requires
        paths_distinct(fs),
        fs.len() > 0,
    ensures
        paths_distinct(fs.drop_last()),
{
    let init = fs.drop_last();
    assert forall|i: int, j: int| 0 <= i < j < init.len() implies (#[trigger] init[i]).shard != (
    #[trigger] init[j]).shard || init[i].name != init[j].name by {
        assert(init[i] == fs[i] && init[j] == fs[j]);
    }
}

proof fn lemma_no_file(fs: Seq<BlobFileView>, hash: Seq<u8>)
    requires
        forall|j: int| 0 <= j < fs.len() ==> !is_file_of(#[trigger] fs[j], hash),
    ensures
        file_of(fs, hash) is None,
    decreases fs.len(),
{
    if fs.len() > 0 {
        let init = fs.drop_last();
        assert(!is_file_of(fs[fs.len() - 1], hash));
        assert forall|j: int| 0 <= j < init.len() implies !is_file_of(#[trigger] init[j], hash) by {
            assert(init[j] == fs[j]);
        }
        lemma_no_file(init, hash);
    }
}

proof fn lemma_file_exists(fs: Seq<BlobFileView>, i: int, hash: Seq<u8>)
    requires
        0 <= i < fs.len(),
        is_file_of(fs[i], hash),
    ensures
        file_of(fs, hash) is Some,
    decreases fs.len(),
{
    if !is_file_of(fs.last(), hash) {
        assert(fs.drop_last()[i] == fs[i]);
        lemma_file_exists(fs.drop_last(), i, hash);
    }
}

proof fn lemma_paths_push(fs: Seq<BlobFileView>, f: BlobFileView, hash: Seq<u8>)
    requires
        paths_distinct(fs),
        is_file_of(f, hash),
        file_of(fs, hash) is None,
    ensures
        paths_distinct(fs.push(f)),
{
    let after = fs.push(f);
    assert forall|i: int, j: int| 0 <= i < j < after.len() implies (#[trigger] after[i]).shard != (
    #[trigger] after[j]).shard || after[i].name != after[j].name by {
        assert(after[i] == fs[i]);
        if j < fs.len() {
            assert(after[j] == fs[j]);
        } else if after[i].shard == f.shard && after[i].name == f.name {
            lemma_file_exists(fs, i, hash);
        }
    }
}

proof fn lemma_without_none(fs: Seq<BlobFileView>, hash: Seq<u8>)
    requires
        forall|j: int| 0 <= j < fs.len() ==> !is_file_of(#[trigger] fs[j], hash),
    ensures
        files_without(fs, hash) == fs,
    decreases fs.len(),
{
    if fs.len() > 0 {
        let init = fs.drop_last();
        assert(!is_file_of(fs[fs.len() - 1], hash));
        assert forall|j: int| 0 <= j < init.len() implies !is_file_of(#[trigger] init[j], hash) by {
            assert(init[j] == fs[j]);
        }
        lemma_without_none(init, hash);
        assert(init.push(fs.last()) =~= fs);
    }
}

proof fn lemma_without_one(fs: Seq<BlobFileView>, i: int, hash: Seq<u8>)
    requires
        paths_distinct(fs),
        0 <= i < fs.len(),
        is_file_of(fs[i], hash),
    ensures
        files_without(fs, hash) == fs.remove(i),
        paths_distinct(fs.remove(i)),
        file_of(fs.remove(i), hash) is None,
    decreases fs.len(),
{
    let rest = fs.remove(i);
    assert forall|x: int, y: int| 0 <= x < y < rest.len() implies (#[trigger] rest[x]).shard != (
    #[trigger] rest[y]).shard || rest[x].name != rest[y].name by {
        let p = if x < i { x } else { x + 1 };
        let q = if y < i { y } else { y + 1 };
        assert(rest[x] == fs[p] && rest[y] == fs[q]);
    }
    assert forall|j: int| 0 <= j < rest.len() implies !is_file_of(#[trigger] rest[j], hash) by {
        let p = if j < i { j } else { j + 1 };
        assert(rest[j] == fs[p]);
        if p < i {
            assert(fs[p].shard != fs[i].shard || fs[p].name != fs[i].name);
        } else {
            assert(fs[i].shard != fs[p].shard || fs[i].name != fs[p].name);
        }
    }
    lemma_no_file(rest, hash);
    let last = fs.len() - 1;
    let init = fs.drop_last();
    if i == last {
        assert(rest =~= init);
        lemma_without_none(init, hash);
    } else {
        assert(fs[i].shard != fs[last].shard || fs[i].name != fs[last].name);
        lemma_paths_init(fs);
        assert(init[i] == fs[i]);
        lemma_without_one(init, i, hash);
        assert(init.remove(i).push(fs.last()) =~= rest);
    }
}

/// What was stored is read back, from the cache or from its file: content that was not
/// there before, with a content type whose length fits.
pub proof fn stored_blob_is_read(s: BlobsView, content: Seq<u8>, content_type: Seq<char>)
    requires
        s.wf(),
        !s.has(blake3_digest(content)),
        blob_fits(content, content_type),
    ensures
        ({
            let hash = blake3_digest(content);
            let after = s.after_store(content, content_type);
            let blob = BlobView { hash, content, content_type };
            &&& after.read(hash) == Ok::<Option<BlobView>, ErrorView>(Some(blob))
            &&& BlobsView { cached: EntriesView::empty(), ..after }.read(hash) == Ok::<
                Option<BlobView>,
                ErrorView,
            >(Some(blob))
        }),
{
    let hash = blake3_digest(content);
    let after = s.after_store(content, content_type);
    blob_round_trip(content, content_type);
    let f = after.files.last();
    assert(is_file_of(f, hash));
    assert(file_of(after.files, hash) == Some(f.bytes));
    let v = (0u64, content, content_type);
    let all = seq![(hash, v)] + without(s.cached, hash);
    lemma_without_key(s.cached, hash);
    assert forall|n: int| 1 <= n <= all.len() implies cached(#[trigger] all.take(n), hash) == Some(
        v,
    ) by {
        lemma_cached_first(all, hash, v, n);
    }
    assert(all.take(all.len() as int) =~= all);
    assert(cached(all, hash) == Some(v));
}

/// Nothing is left under a key that was taken out.
pub proof fn lemma_without_key(entries: EntriesView, key: Seq<u8>)
    ensures
        forall|i: int|
            0 <= i < without(entries, key).len() ==> (#[trigger] without(entries, key)[i]).0 != key,
        cached(without(entries, key), key) is None,
    decreases entries.len(),
{
    if entries.len() > 0 {
        lemma_without_key(entries.drop_last(), key);
        let w = without(entries.drop_last(), key);
        if entries.last().0 != key {
            assert(w.push(entries.last()).drop_last() =~= w);
        }
    }
}

pub proof fn lemma_cached_first(
    all: EntriesView,
    key: Seq<u8>,
    v: (u64, Seq<u8>, Seq<char>),
    n: int,
)
    requires
        1 <= n <= all.len(),
        all[0] == (key, v),
        forall|i: int| 1 <= i < all.len() ==> (#[trigger] all[i]).0 != key,
    ensures
        cached(all.take(n), key) == Some(v),
    decreases n,
{
    assert(all.take(n).drop_last() =~= all.take(n - 1));
    if n > 1 {
        assert(all.take(n).last() == all[n - 1]);
        lemma_cached_first(all, key, v, n - 1);
    }
}

/// Storing the same content again changes nothing, whatever content type is given.
pub proof fn storing_again_changes_nothing(
    s: BlobsView,
    content: Seq<u8>,
    content_type: Seq<char>,
    other_type: Seq<char>,
)
    requires
        s.wf(),
    ensures
        s.after_store(content, content_type).has(blake3_digest(content)),
        s.after_store(content, content_type).after_store(content, other_type) == s.after_store(
            content,
            content_type,
        ),
{
    let hash = blake3_digest(content);
    let after = s.after_store(content, content_type);
    if !s.has(hash) {
        assert(is_file_of(after.files.last(), hash));
    }
}

/// A blob that was deleted is not there any more; one with another hash is as it was.
pub proof fn deleted_blob_is_gone(s: BlobsView, hash: Seq<u8>, other: Seq<u8>)
    requires
        s.wf(),
    ensures
        !s.after_delete(hash).has(hash),
        s.after_delete(hash).read(hash) == Ok::<Option<BlobView>, ErrorView>(None),
        other != hash ==> s.after_delete(hash).read(other) == s.read(other),
{
    lemma_files_without(s.files, hash, other);
    lemma_without_key(s.cached, hash);
    if other != hash {
        hex_text_tells_apart(other, hash);
        lemma_cached_other(s.cached, hash, other);
    }
}

proof fn lemma_files_without(fs: Seq<BlobFileView>, hash: Seq<u8>, other: Seq<u8>)
    ensures
        file_of(files_without(fs, hash), hash) is None,
        hex_text(other) != hex_text(hash) ==> file_of(files_without(fs, hash), other) == file_of(
            fs,
            other,
        ),
    decreases fs.len(),
{
    if fs.len() > 0 {
        lemma_files_without(fs.drop_last(), hash, other);
        let w = files_without(fs.drop_last(), hash);
        if !is_file_of(fs.last(), hash) {
            assert(w.push(fs.last()).drop_last() =~= w);
        }
    }
}

pub proof fn lemma_cached_other(entries: EntriesView, key: Seq<u8>, other: Seq<u8>)
    requires
        key != other,
    ensures
        cached(without(entries, key), other) == cached(entries, other),
    decreases entries.len(),
{
    if entries.len() > 0 {
        lemma_cached_other(entries.drop_last(), key, other);
        let w = without(entries.drop_last(), key);
        if entries.last().0 != key {
            assert(w.push(entries.last()).drop_last() =~= w);
        }
    }
}

} // verus!
