//! The search layer: rank hits, cap the result count, and reconstruct each
//! hit's image from storage.
//!
//! The index oracle answers a query with scored hits. They are ordered here
//! by relevance score, non-increasing and stable (ties keep the oracle's own
//! order), truncated to `SEARCH_CAP`, and each surviving hit's image bytes
//! are re-read from the stored file at the path recomputed from the hit's
//! time and screen — never cached. A hit whose file has gone missing fails
//! the whole query, as does one whose recorded time no longer names a valid
//! capture time.
//!
//! The surrounding query interface also carries a time range that the
//! pipeline never applies to filtering; that remains an unfinished feature,
//! deliberately not implemented here rather than silently added.

use vstd::prelude::*;

verus! {

use crate::datetime::DateTime;

/// At most this many results are returned for one query.
pub const SEARCH_CAP: usize = 200;

/// One scored hit handed back by the index oracle: the relevance score (in a
/// representation whose integer order is the oracle's score order), the
/// document's text, capture time and screen.
pub struct SearchHit {
    pub score: u64,
    pub text: String,
    pub time: DateTime,
    pub screen_id: u32,
}

/// One search result: the hit's screen, its image re-read from storage, its
/// text and its capture time.
pub struct SearchResult {
    pub screen_id: u32,
    pub image: Vec<u8>,
    pub text: String,
    pub time: DateTime,
}

/// Why a query failed as a whole.
#[derive(Debug, PartialEq, Eq)]
pub enum SearchError {
    /// A hit's recorded capture time is out of range for a storage path.
    InvalidTime,
    /// A hit's stored file has been deleted or moved since it was indexed.
    MissingFile,
}

/// Scores never increase along the sequence.
pub open spec fn sorted_desc(s: Seq<SearchHit>) -> bool {
    forall|i: int, j: int| 0 <= i <= j < s.len() ==> s[i].score >= s[j].score
}

/// Insert a hit behind every hit that scores at least as high, so that equal
/// scores keep their existing order.
pub open spec fn insert_desc(s: Seq<SearchHit>, h: SearchHit) -> Seq<SearchHit>
    decreases s.len(),
{
    if s.len() > 0 && s[0].score >= h.score {
        seq![s[0]] + insert_desc(s.drop_first(), h)
    } else {
        seq![h] + s
    }
}

/// Stable sort by score, highest first.
pub open spec fn sort_desc(s: Seq<SearchHit>) -> Seq<SearchHit>
    decreases s.len(),
{
    if s.len() == 0 {
        Seq::empty()
    } else {
        insert_desc(sort_desc(s.drop_last()), s.last())
    }
}

/// The ranked, capped view of the oracle's hits: what a query answers.
pub open spec fn ranked(s: Seq<SearchHit>) -> Seq<SearchHit> {
    sort_desc(s).take(
        if s.len() <= SEARCH_CAP { s.len() as int } else { SEARCH_CAP as int },
    )
}

/// Inserting into a sorted sequence keeps it sorted and grows it by one.
proof fn lemma_insert_desc_sorted(s: Seq<SearchHit>, h: SearchHit)
    requires
        sorted_desc(s),
    ensures
        sorted_desc(insert_desc(s, h)),
        insert_desc(s, h).len() == s.len() + 1,
    decreases s.len(),
{
    if s.len() > 0 && s[0].score >= h.score {
        let tail = s.drop_first();
        assert(forall|i: int, j: int|
            0 <= i <= j < tail.len() ==> tail[i].score >= tail[j].score);
        lemma_insert_desc_sorted(tail, h);
        let inner = insert_desc(tail, h);
        let out = seq![s[0]] + inner;
        assert(inner[0].score <= s[0].score) by {
            if tail.len() > 0 && tail[0].score >= h.score {
                assert(inner[0] == tail[0]);
            } else {
                assert(inner[0] == h);
            }
        }
        assert forall|i: int, j: int| 0 <= i <= j < out.len() implies out[i].score
            >= out[j].score by {
            if i == 0 && j > 0 {
                assert(out[j] == inner[j - 1]);
                assert(inner[0].score >= inner[j - 1].score);
            } else if i > 0 {
                assert(out[i] == inner[i - 1] && out[j] == inner[j - 1]);
            }
        }
    }
}

/// The sort keeps every hit: same length, and sorted output.
pub proof fn lemma_sort_desc(s: Seq<SearchHit>)
    ensures
        sort_desc(s).len() == s.len(),
        sorted_desc(sort_desc(s)),
    decreases s.len(),
{
    if s.len() > 0 {
        lemma_sort_desc(s.drop_last());
        lemma_insert_desc_sorted(sort_desc(s.drop_last()), s.last());
    }
}

/// Search results are non-increasing in relevance score, and never more than
/// `SEARCH_CAP` of them come back however many documents match.
pub proof fn lemma_search_order_and_cap(s: Seq<SearchHit>)
    ensures
        ranked(s).len() <= SEARCH_CAP,
        ranked(s).len() == if s.len() <= SEARCH_CAP { s.len() } else { SEARCH_CAP as nat },
        sorted_desc(ranked(s)),
{
    lemma_sort_desc(s);
    assert forall|i: int, j: int| 0 <= i <= j < ranked(s).len() implies ranked(s)[i].score
        >= ranked(s)[j].score by {
        assert(ranked(s)[i] == sort_desc(s)[i] && ranked(s)[j] == sort_desc(s)[j]);
    }
}

/// Inserting at the first position whose score is lower is what the spec's
/// insertion does.
proof fn lemma_insert_desc_at(s: Seq<SearchHit>, h: SearchHit, pos: int)
    requires
        0 <= pos <= s.len(),
        forall|j: int| 0 <= j < pos ==> s[j].score >= h.score,
        pos < s.len() ==> s[pos].score < h.score,
    ensures
        insert_desc(s, h) == s.insert(pos, h),
    decreases pos,
{
    if pos == 0 {
        assert(insert_desc(s, h) =~= s.insert(0, h));
    } else {
        let tail = s.drop_first();
        lemma_insert_desc_at(tail, h, pos - 1);
        assert(seq![s[0]] + tail.insert(pos - 1, h) =~= s.insert(pos, h));
    }
}

/// Order the oracle's hits by score, highest first and stable, and keep at
/// most `SEARCH_CAP` of them.
pub fn rank_hits(hits: Vec<SearchHit>) -> (r: Vec<SearchHit>)
    ensures
        r@ == ranked(hits@),
        r@.len() <= SEARCH_CAP,
        sorted_desc(r@),
{
    let ghost orig = hits@;
    let mut rest = hits;
    let mut out: Vec<SearchHit> = Vec::new();
    let ghost mut done: int = 0;
    proof {
        assert(orig.take(0) =~= Seq::<SearchHit>::empty());
    }
    while rest.len() > 0
        invariant
            0 <= done <= orig.len(),
            rest@ =~= orig.skip(done),
            out@ == sort_desc(orig.take(done)),
            sorted_desc(out@),
        decreases rest@.len(),
    {
        let h = rest.remove(0);
        proof {
            assert(h == orig[done]);
            assert(rest@ =~= orig.skip(done + 1));
        }
        let mut pos: usize = 0;
        while pos < out.len() && out[pos].score >= h.score
            invariant
                pos <= out@.len(),
                forall|j: int| 0 <= j < pos ==> out@[j].score >= h.score,
            decreases out@.len() - pos,
        {
            pos += 1;
        }
        let ghost before = out@;
        out.insert(pos, h);
        proof {
            lemma_insert_desc_at(before, h, pos as int);
            assert(orig.take(done + 1).drop_last() =~= orig.take(done));
            assert(orig.take(done + 1).last() == orig[done]);
            lemma_insert_desc_sorted(before, h);
            done = done + 1;
        }
    }
    proof {
        assert(orig.take(done) =~= orig);
        lemma_sort_desc(orig);
    }
    if out.len() > SEARCH_CAP {
        out.truncate(SEARCH_CAP);
        proof {
            assert(out@ == ranked(orig));
        }
    } else {
        proof {
            assert(sort_desc(orig).take(orig.len() as int) =~= sort_desc(orig));
        }
    }
    out
}

/// Answer a query's hits: rank and cap them, and assemble each surviving
/// hit's result from the bytes its stored file holds at response time.
///
/// Disk is the sole source of truth for pixel data, so the caller re-reads
/// each surviving hit's file fresh when the query is answered — never from a
/// cache — and hands the bytes in: `images[i]` must be the content read, at
/// response time, from the file at the storage path of `ranked(hits)[i]`
/// (the path that `screen_path` recomputes from the hit's time and screen),
/// or `None` where that file has been deleted or moved, or where the hit's
/// time encodes no storage path. One missing file or out-of-range time fails
/// the whole query.
pub fn search_screens(hits: Vec<SearchHit>, images: Vec<Option<Vec<u8>>>) -> (r: Result<
    Vec<SearchResult>,
    SearchError,
>)
    requires
        images@.len() == ranked(hits@).len(),
    ensures
        r matches Ok(res) ==> {
            &&& res@.len() == ranked(hits@).len()
            &&& forall|i: int|
                0 <= i < res@.len() ==> {
                    let hit = #[trigger] ranked(hits@)[i];
                    &&& res@[i].screen_id == hit.screen_id
                    &&& res@[i].text@ == hit.text@
                    &&& res@[i].time == hit.time
                    &&& hit.time.valid()
                    &&& images@[i] matches Some(b) && res@[i].image@ == b@
                }
        },
        r is Err <==> exists|i: int|
            0 <= i < ranked(hits@).len() && (!(#[trigger] ranked(hits@)[i]).time.valid()
                || images@[i] is None),
        r matches Err(e) ==> (e is InvalidTime || e is MissingFile),
{
    let top = rank_hits(hits);
    let n = top.len();
    let mut rest = images;
    let mut out: Vec<SearchResult> = Vec::new();
    let mut k: usize = 0;
    while k < n
        invariant
            n == top@.len(),
            top@ == ranked(hits@),
            images@.len() == n,
            k <= n,
            rest@ =~= images@.skip(k as int),
            out@.len() == k,
            forall|i: int|
                0 <= i < k ==> {
                    let hit = #[trigger] ranked(hits@)[i];
                    &&& out@[i].screen_id == hit.screen_id
                    &&& out@[i].text@ == hit.text@
                    &&& out@[i].time == hit.time
                    &&& hit.time.valid()
                    &&& images@[i] matches Some(b) && out@[i].image@ == b@
                },
        decreases n - k,
    {
        let hit = &top[k];
        if !hit.time.check_valid() {
            proof {
                assert(!(#[trigger] ranked(hits@)[k as int]).time.valid());
            }
            return Err(SearchError::InvalidTime);
        }
        let next = rest.remove(0);
        proof {
            assert(next == images@[k as int]);
            assert(rest@ =~= images@.skip(k + 1));
        }
        match next {
            None => {
                proof {
                    assert(0 <= k < ranked(hits@).len() && images@[k as int] is None);
                    assert((#[trigger] ranked(hits@)[k as int]).time.valid() || true);
                }
                return Err(SearchError::MissingFile);
            },
            Some(image) => {
                let text = hit.text.clone();
                out.push(
                    SearchResult { screen_id: hit.screen_id, image, text, time: hit.time },
                );
            },
        }
        k += 1;
    }
    proof {
        assert forall|i: int| 0 <= i < ranked(hits@).len() implies (#[trigger] ranked(
            hits@,
        )[i]).time.valid() && !(images@[i] is None) by {
            assert(out@[i].time == ranked(hits@)[i].time);
        }
    }
    Ok(out)
}

} // verus!
