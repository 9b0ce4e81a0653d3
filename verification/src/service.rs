//! The ingestion pipeline and its durable state, as one service context.
//!
//! The service holds the deduplication cache, a record of the writes made to
//! the storage root (one entry per path, as the filesystem keeps one file per
//! path), and the index oracle's two document generations: the pending
//! documents added since the last commit, and the committed ones visible to
//! search. The surrounding runtime performs the actual disk writes, text
//! extraction and index calls, and drives this state through the operations
//! here, which decide and record every step. Disk stays the sole source of
//! truth for pixel data: the search path reads result images fresh from the
//! stored files when a query is answered, never from this record.
//!
//! The check-then-insert ingestion protocol is deliberately kept in two
//! steps (`ingest_check`, then `ingest_record` after text extraction), as the
//! pipeline it models interleaves blocking work between them; two concurrent
//! ingestions of the same image may therefore both pass the check and both be
//! recorded. `ingest_accept` performs both steps back to back and closes that
//! window for callers that already hold the extracted text.

use vstd::prelude::*;

verus! {

use crate::datetime::DateTime;
use crate::dedup::DedupSet;
use crate::fingerprint::{decodes, fingerprint_of, get_dhash, Fingerprint};
use crate::storage::{datetime_to_screen_path, path_chars};

/// One document of the full-text index: the extracted text, the capture
/// time, and the screen it was captured from.
pub struct IndexedDoc {
    pub text: String,
    pub time: DateTime,
    pub screen_id: u32,
}

/// The mathematical content of an indexed document.
pub struct DocV {
    pub text: Seq<char>,
    pub time: DateTime,
    pub screen_id: u32,
}

impl View for IndexedDoc {
    type V = DocV;

    open spec fn view(&self) -> DocV {
        DocV { text: self.text@, time: self.time, screen_id: self.screen_id }
    }
}

/// The contents of a sequence of indexed documents.
pub open spec fn docs_view(s: Seq<IndexedDoc>) -> Seq<DocV> {
    s.map_values(|d: IndexedDoc| d@)
}

/// One stored capture image: its path under the storage root and its bytes.
pub struct StoredFile {
    pub path: String,
    pub bytes: Vec<u8>,
}

/// Whether some stored file sits at this path.
pub open spec fn has_path(files: Seq<StoredFile>, p: Seq<char>) -> bool {
    exists|i: int| 0 <= i < files.len() && files[i].path@ == p
}

/// The index of the stored file at this path.
pub open spec fn path_index(files: Seq<StoredFile>, p: Seq<char>) -> int {
    choose|i: int| 0 <= i < files.len() && files[i].path@ == p
}

/// The bytes stored at this path.
pub open spec fn bytes_at(files: Seq<StoredFile>, p: Seq<char>) -> Seq<u8>
    recommends
        has_path(files, p),
{
    files[path_index(files, p)].bytes@
}

/// The service context built once at startup and handed to every request.
pub struct Service {
    /// Fingerprints of every capture ingested so far.
    pub dedup: DedupSet,
    /// The writes made to the storage root, one per path: what the pipeline
    /// has put on disk, where the durable copy lives.
    pub files: Vec<StoredFile>,
    /// Documents handed to the index oracle but not yet committed.
    pub pending: Vec<IndexedDoc>,
    /// Documents made visible to search by a commit.
    pub committed: Vec<IndexedDoc>,
    /// How many times the text-extraction oracle has been invoked.
    pub ocr_calls: u64,
}

/// What the membership check decides about one capture.
pub enum IngestGate {
    /// The bytes do not decode as an image; the capture is refused with no
    /// further side effects.
    Rejected,
    /// The fingerprint is already known: a successful no-op, with no text
    /// extraction, no file write and no index write.
    Duplicate,
    /// A new fingerprint: extract text, store the file, index the document,
    /// then record the fingerprint.
    Fresh(Fingerprint),
}

impl Service {
    /// The storage root never holds two files at one path.
    pub open spec fn wf(&self) -> bool {
        forall|i: int, j: int|
            0 <= i < j < self.files@.len() ==> self.files@[i].path@ != self.files@[j].path@
    }

    /// A fresh service: nothing seen, nothing stored, nothing indexed.
    pub fn new() -> (r: Service)
        ensures
            r.wf(),
            r.dedup@ == Set::<Seq<bool>>::empty(),
            r.files@.len() == 0,
            r.pending@.len() == 0,
            r.committed@.len() == 0,
            r.ocr_calls == 0,
    {
        Service {
            dedup: DedupSet::new(),
            files: Vec::new(),
            pending: Vec::new(),
            committed: Vec::new(),
            ocr_calls: 0,
        }
    }

    /// Gate one capture: refuse undecodable bytes, skip known fingerprints,
    /// and otherwise hand back the fingerprint to record after extraction.
    pub fn ingest_check(&self, image: &Vec<u8>) -> (r: IngestGate)
        ensures
            r is Rejected <==> !decodes(image@),
            r is Duplicate <==> decodes(image@) && self.dedup@.contains(fingerprint_of(image@)),
            r is Fresh <==> decodes(image@) && !self.dedup@.contains(fingerprint_of(image@)),
            r matches IngestGate::Fresh(fp) ==> fp@ == fingerprint_of(image@),
    {
        match get_dhash(image) {
            None => IngestGate::Rejected,
            Some(fp) => {
                if self.dedup.contains(&fp) {
                    IngestGate::Duplicate
                } else {
                    IngestGate::Fresh(fp)
                }
            },
        }
    }

    /// Record one accepted capture: write its image under the storage path of
    /// its time and screen (overwriting any file already there), append its
    /// document to the pending generation, count the text extraction that
    /// produced `text`, and remember the fingerprint.
    pub fn ingest_record(
        &mut self,
        time: DateTime,
        screen_id: u32,
        image: Vec<u8>,
        fp: Fingerprint,
        text: String,
    )
        requires
            old(self).wf(),
            time.valid(),
            decodes(image@),
            fp@ == fingerprint_of(image@),
            old(self).ocr_calls < u64::MAX,
        ensures
            final(self).wf(),
            final(self).dedup@ == old(self).dedup@.insert(fingerprint_of(image@)),
            docs_view(final(self).pending@) == docs_view(old(self).pending@).push(
                DocV { text: text@, time, screen_id },
            ),
            final(self).committed@ == old(self).committed@,
            final(self).ocr_calls == old(self).ocr_calls + 1,
            has_path(final(self).files@, path_chars(time, screen_id)),
            bytes_at(final(self).files@, path_chars(time, screen_id)) == image@,
            forall|p: Seq<char>|
                has_path(final(self).files@, p) <==> has_path(old(self).files@, p) || p
                    == path_chars(time, screen_id),
            forall|p: Seq<char>|
                p != path_chars(time, screen_id) && has_path(old(self).files@, p) ==> bytes_at(
                    final(self).files@,
                    p,
                ) == bytes_at(old(self).files@, p),
    {
        let (dir, fname) = datetime_to_screen_path(time, screen_id);
        let full = dir.concat(fname.as_str());
        proof {
            assert(full@ =~= path_chars(time, screen_id));
        }
        self.write_file(full, image);
        let ghost before = self.pending@;
        self.pending.push(IndexedDoc { text, time, screen_id });
        proof {
            assert(docs_view(self.pending@) =~= docs_view(before).push(
                self.pending@.last()@,
            ));
        }
        self.dedup.insert(fp);
        self.ocr_calls = self.ocr_calls + 1;
    }

    /// Gate and record in one step, given the already extracted text: refused
    /// bytes and known duplicates leave the service unchanged, and the result
    /// reports whether the capture counts as successfully ingested (a
    /// duplicate does).
    pub fn ingest_accept(
        &mut self,
        time: DateTime,
        screen_id: u32,
        image: Vec<u8>,
        text: String,
    ) -> (r: bool)
        requires
            old(self).wf(),
            time.valid(),
            old(self).ocr_calls < u64::MAX,
        ensures
            final(self).wf(),
            r == decodes(image@),
            !decodes(image@) ==> *final(self) == *old(self),
            decodes(image@) && old(self).dedup@.contains(fingerprint_of(image@)) ==> *final(self)
                == *old(self),
            decodes(image@) && !old(self).dedup@.contains(fingerprint_of(image@)) ==> {
                &&& final(self).dedup@ == old(self).dedup@.insert(fingerprint_of(image@))
                &&& docs_view(final(self).pending@) == docs_view(old(self).pending@).push(
                    DocV { text: text@, time, screen_id },
                )
                &&& final(self).committed@ == old(self).committed@
                &&& final(self).ocr_calls == old(self).ocr_calls + 1
                &&& has_path(final(self).files@, path_chars(time, screen_id))
                &&& bytes_at(final(self).files@, path_chars(time, screen_id)) == image@
            },
    {
        let gate = self.ingest_check(&image);
        match gate {
            IngestGate::Rejected => false,
            IngestGate::Duplicate => true,
            IngestGate::Fresh(fp) => {
                self.ingest_record(time, screen_id, image, fp, text);
                true
            },
        }
    }

    /// Commit the index: every pending document becomes visible to search,
    /// in order, after everything committed before.
    pub fn commit(&mut self)
        ensures
            final(self).committed@ == old(self).committed@ + old(self).pending@,
            final(self).pending@.len() == 0,
            final(self).dedup == old(self).dedup,
            final(self).files == old(self).files,
            final(self).ocr_calls == old(self).ocr_calls,
            old(self).wf() ==> final(self).wf(),
    {
        let mut taken: Vec<IndexedDoc> = Vec::new();
        core::mem::swap(&mut self.pending, &mut taken);
        self.committed.append(&mut taken);
    }

    /// Look a stored capture up by its path and hand back a copy of its
    /// bytes; `None` exactly when no file sits at that path.
    pub fn read_file(&self, path: &String) -> (r: Option<Vec<u8>>)
        requires
            self.wf(),
        ensures
            r is Some <==> has_path(self.files@, path@),
            r matches Some(b) ==> b@ == bytes_at(self.files@, path@),
    {
        let n = self.files.len();
        let mut i: usize = 0;
        while i < n
            invariant
                self.wf(),
                n == self.files@.len(),
                i <= n,
                forall|j: int| 0 <= j < i ==> self.files@[j].path@ != path@,
            decreases n - i,
        {
            if self.files[i].path.eq(path) {
                let b = clone_bytes(&self.files[i].bytes);
                proof {
                    assert(has_path(self.files@, path@));
                    let k = path_index(self.files@, path@);
                    assert(0 <= k < self.files@.len() && self.files@[k].path@ == path@);
                    assert(k == i);
                }
                return Some(b);
            }
            i += 1;
        }
        None
    }

    /// Write bytes at a path, replacing whatever file was there.
    fn write_file(&mut self, path: String, bytes: Vec<u8>)
        requires
            old(self).wf(),
        ensures
            final(self).wf(),
            final(self).dedup == old(self).dedup,
            final(self).pending == old(self).pending,
            final(self).committed == old(self).committed,
            final(self).ocr_calls == old(self).ocr_calls,
            has_path(final(self).files@, path@),
            bytes_at(final(self).files@, path@) == bytes@,
            forall|p: Seq<char>|
                has_path(final(self).files@, p) <==> has_path(old(self).files@, p) || p == path@,
            forall|p: Seq<char>|
                p != path@ && has_path(old(self).files@, p) ==> bytes_at(final(self).files@, p)
                    == bytes_at(old(self).files@, p),
    {
        let ghost before = self.files@;
        let found = find_path(&self.files, &path);
        match found {
            Some(i) => {
                let mut f = self.files.remove(i);
                f.bytes = bytes;
                self.files.insert(i, f);
                proof {
                    assert(self.files@ =~= before.update(i as int, self.files@[i as int]));
                    assert(self.files@[i as int].path@ == path@);
                    assert(forall|j: int|
                        0 <= j < before.len() && j != i ==> self.files@[j] == before[j]);
                    assert(forall|j: int|
                        0 <= j < before.len() ==> self.files@[j].path@ == before[j].path@);
                    lemma_store_updated(before, self.files@, i as int, path@, bytes@);
                }
            },
            None => {
                self.files.push(StoredFile { path, bytes });
                proof {
                    let n = before.len() as int;
                    assert(self.files@[n].path@ == path@);
                    assert(forall|j: int| 0 <= j < n ==> self.files@[j] == before[j]);
                    lemma_store_appended(before, self.files@, path@, bytes@);
                }
            },
        }
    }
}

/// The index of the file at this path, if any.
fn find_path(files: &Vec<StoredFile>, path: &String) -> (r: Option<usize>)
    ensures
        r matches Some(i) ==> i < files@.len() && files@[i as int].path@ == path@,
        r is None ==> !has_path(files@, path@),
{
    let n = files.len();
    let mut i: usize = 0;
    while i < n
        invariant
            n == files@.len(),
            i <= n,
            forall|j: int| 0 <= j < i ==> files@[j].path@ != path@,
        decreases n - i,
    {
        if files[i].path.eq(path) {
            return Some(i);
        }
        i += 1;
    }
    None
}

/// Copy a byte vector.
fn clone_bytes(b: &Vec<u8>) -> (r: Vec<u8>)
    ensures
        r@ == b@,
{
    let n = b.len();
    let mut r: Vec<u8> = Vec::new();
    let mut i: usize = 0;
    while i < n
        invariant
            n == b@.len(),
            i <= n,
            r@ == b@.take(i as int),
        decreases n - i,
    {
        r.push(b[i]);
        proof {
            assert(r@ =~= b@.take(i + 1));
        }
        i += 1;
    }
    proof {
        assert(b@.take(n as int) =~= b@);
    }
    r
}

/// Replacing one file in place keeps the store well formed and only moves
/// that one path.
proof fn lemma_store_updated(
    before: Seq<StoredFile>,
    after: Seq<StoredFile>,
    i: int,
    path: Seq<char>,
    bytes: Seq<u8>,
)
    requires
        forall|a: int, b: int| 0 <= a < b < before.len() ==> before[a].path@ != before[b].path@,
        0 <= i < before.len(),
        after.len() == before.len(),
        before[i].path@ == path,
        after[i].path@ == path,
        after[i].bytes@ == bytes,
        forall|j: int| 0 <= j < before.len() && j != i ==> after[j] == before[j],
        forall|j: int| 0 <= j < before.len() ==> after[j].path@ == before[j].path@,
    ensures
        forall|a: int, b: int| 0 <= a < b < after.len() ==> after[a].path@ != after[b].path@,
        has_path(after, path),
        bytes_at(after, path) == bytes,
        forall|p: Seq<char>| has_path(after, p) <==> has_path(before, p) || p == path,
        forall|p: Seq<char>|
            p != path && has_path(before, p) ==> bytes_at(after, p) == bytes_at(before, p),
{
    assert(has_path(after, path));
    let k = path_index(after, path);
    assert(0 <= k < after.len() && after[k].path@ == path);
    if k != i {
        assert(before[k].path@ == path);
        assert(false);
    }
    assert forall|p: Seq<char>| has_path(after, p) implies has_path(before, p) || p == path by {
        let j = choose|j: int| 0 <= j < after.len() && after[j].path@ == p;
        assert(before[j].path@ == after[j].path@);
    }
    assert forall|p: Seq<char>| has_path(before, p) || p == path implies has_path(after, p) by {
        if has_path(before, p) {
            let j = choose|j: int| 0 <= j < before.len() && before[j].path@ == p;
            assert(after[j].path@ == p);
        } else {
            assert(after[i].path@ == p);
        }
    }
    assert forall|p: Seq<char>|
        p != path && has_path(before, p) implies bytes_at(after, p) == bytes_at(before, p) by {
        let a = path_index(before, p);
        assert(0 <= a < before.len() && before[a].path@ == p);
        assert(after[a].path@ == p);
        assert(has_path(after, p));
        let b = path_index(after, p);
        assert(0 <= b < after.len() && after[b].path@ == p);
        if a != b {
            assert(before[b].path@ == after[b].path@);
            assert(false);
        }
        assert(a != i);
    }
}

/// Appending a file at a new path keeps the store well formed and adds only
/// that path.
proof fn lemma_store_appended(
    before: Seq<StoredFile>,
    after: Seq<StoredFile>,
    path: Seq<char>,
    bytes: Seq<u8>,
)
    requires
        forall|a: int, b: int| 0 <= a < b < before.len() ==> before[a].path@ != before[b].path@,
        !has_path(before, path),
        after.len() == before.len() + 1,
        after[before.len() as int].path@ == path,
        after[before.len() as int].bytes@ == bytes,
        forall|j: int| 0 <= j < before.len() ==> after[j] == before[j],
    ensures
        forall|a: int, b: int| 0 <= a < b < after.len() ==> after[a].path@ != after[b].path@,
        has_path(after, path),
        bytes_at(after, path) == bytes,
        forall|p: Seq<char>| has_path(after, p) <==> has_path(before, p) || p == path,
        forall|p: Seq<char>|
            p != path && has_path(before, p) ==> bytes_at(after, p) == bytes_at(before, p),
{
    let n = before.len() as int;
    assert forall|a: int, b: int| 0 <= a < b < after.len() implies after[a].path@
        != after[b].path@ by {
        if b == n {
            assert(after[a] == before[a]);
            if after[a].path@ == path {
                assert(has_path(before, path));
            }
        }
    }
    assert(has_path(after, path));
    let k = path_index(after, path);
    assert(0 <= k < after.len() && after[k].path@ == path);
    if k != n {
        assert(before[k].path@ == path);
        assert(has_path(before, path));
    }
    assert forall|p: Seq<char>| has_path(after, p) implies has_path(before, p) || p == path by {
        let j = choose|j: int| 0 <= j < after.len() && after[j].path@ == p;
        if j < n {
            assert(before[j].path@ == p);
        }
    }
    assert forall|p: Seq<char>| has_path(before, p) || p == path implies has_path(after, p) by {
        if has_path(before, p) {
            let j = choose|j: int| 0 <= j < before.len() && before[j].path@ == p;
            assert(after[j].path@ == p);
        } else {
            assert(after[n].path@ == p);
        }
    }
    assert forall|p: Seq<char>|
        p != path && has_path(before, p) implies bytes_at(after, p) == bytes_at(before, p) by {
        let a = path_index(before, p);
        assert(0 <= a < before.len() && before[a].path@ == p);
        assert(after[a].path@ == p);
        assert(has_path(after, p));
        let b = path_index(after, p);
        assert(0 <= b < after.len() && after[b].path@ == p);
        if b == n {
            assert(false);
        }
        if a != b {
            assert(before[b].path@ == p);
            assert(false);
        }
    }
}

/// Ingestion is idempotent on the deduplication cache: once a capture's
/// fingerprint is recorded, the membership check reports any capture with the
/// same bytes as a duplicate, so the pipeline performs no second text
/// extraction, no second file write and no second index write for it.
pub proof fn lemma_ingest_idempotent(before: Set<Seq<bool>>, image: Seq<u8>)
    requires
        decodes(image),
    ensures
        before.insert(fingerprint_of(image)).contains(fingerprint_of(image)),
{
}

} // verus!
