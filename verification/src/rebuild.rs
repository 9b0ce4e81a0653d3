//! Bulk index reconstruction from the files already on disk.
//!
//! On a first run after the index directory was removed (or in recovery), the
//! stored captures are the only durable state. Each file's capture time and
//! screen are parsed back out of its path — failing loudly on any path that
//! does not have the storage layout's shape — and paired with its extracted
//! text into one document per file, to be committed in a single batch once
//! all files are processed. The deduplication cache is not consulted nor
//! populated here: the rebuilt index has no memory of already-seen
//! fingerprints unless the cache is rehydrated separately.

use vstd::prelude::*;

verus! {

use crate::service::{docs_view, DocV, IndexedDoc, Service};
use crate::storage::{parse_screen_path, path_chars};

/// One document built from one stored file: its fields encode exactly that
/// file's path, and its text is that file's extracted text.
pub open spec fn doc_matches_file(doc: DocV, path: Seq<char>, text: Seq<char>) -> bool {
    &&& doc.time.valid()
    &&& path == path_chars(doc.time, doc.screen_id)
    &&& doc.text == text
}

/// Rebuild one document per stored file from the file paths and the text
/// extracted from each file. Fails on the first path that is not a storage
/// path, reporting its position; succeeds with exactly one document per file
/// otherwise.
pub fn rebuild_docs(paths: &Vec<String>, texts: &Vec<String>) -> (r: Result<Vec<IndexedDoc>, usize>)
    requires
        paths@.len() == texts@.len(),
    ensures
        r matches Ok(docs) ==> docs@.len() == paths@.len() && (forall|i: int|
            0 <= i < docs@.len() ==> doc_matches_file(
                #[trigger] docs@[i]@,
                paths@[i]@,
                texts@[i]@,
            )),
        r matches Err(bad) ==> bad < paths@.len() && (forall|dt: crate::datetime::DateTime,
            sid: u32| !(dt.valid() && paths@[bad as int]@ == path_chars(dt, sid))),
{
    let n = paths.len();
    let mut docs: Vec<IndexedDoc> = Vec::new();
    let mut i: usize = 0;
    while i < n
        invariant
            n == paths@.len() == texts@.len(),
            i <= n,
            docs@.len() == i,
            forall|j: int|
                0 <= j < i ==> doc_matches_file(#[trigger] docs@[j]@, paths@[j]@, texts@[j]@),
        decreases n - i,
    {
        match parse_screen_path(paths[i].as_str()) {
            None => {
                return Err(i);
            },
            Some((time, screen_id)) => {
                let text = texts[i].clone();
                docs.push(IndexedDoc { text, time, screen_id });
            },
        }
        i += 1;
    }
    Ok(docs)
}

/// Rebuild completeness: feeding the rebuilt documents of `n` files to a
/// service with an empty index and committing once makes exactly `n`
/// documents visible to search, one per file, each carrying that file's
/// parsed capture identity and extracted text. The per-file match is the
/// contract of `rebuild_docs`; this law adds that the single commit loses and
/// invents nothing, whatever order concurrent workers filled `pending` in.
pub proof fn lemma_rebuild_complete(before: Service, after: Service, n: nat)
    requires
        before.committed@.len() == 0,
        before.pending@.len() == n,
        after.committed@ == before.committed@ + before.pending@,
        after.pending@.len() == 0,
    ensures
        after.committed@ == before.pending@,
        after.committed@.len() == n,
        docs_view(after.committed@) == docs_view(before.pending@),
{
    assert(after.committed@ =~= before.pending@);
}

} // verus!
