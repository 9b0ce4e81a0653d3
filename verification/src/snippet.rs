//! The three-part excerpt shown around a query match.
//!
//! The document's text is lower-cased and split into Unicode words; the first
//! word equal to the lower-cased query (a case-insensitive exact token match,
//! not a substring match) is the highlighted middle segment, with up to half
//! the window of words before it and from it onward after it. When the query
//! appears as no exact token, all three parts are empty.

use unicode_segmentation::UnicodeSegmentation;
use vstd::prelude::*;

verus! {

/// What `str::to_lowercase` returns for these characters.
pub uninterp spec fn lower_of(s: Seq<char>) -> Seq<char>;

/// The Unicode words of these characters, in order, as
/// `unicode_segmentation` splits them.
pub uninterp spec fn words_of(s: Seq<char>) -> Seq<Seq<char>>;

/// Relies on `str::to_lowercase`: the result is a function of the characters
/// alone.
#[verifier::external_body]
fn lowercase(s: &str) -> (r: String)
    ensures
        r@ == lower_of(s@),
{
    s.to_lowercase()
}

/// Relies on `UnicodeSegmentation::unicode_words` of the
/// `unicode_segmentation` crate: the word split is a function of the
/// characters alone.
#[verifier::external_body]
fn unicode_words(s: &str) -> (r: Vec<String>)
    ensures
        r@.map_values(|w: String| w@) == words_of(s@),
{
    s.unicode_words().map(|w| w.to_string()).collect()
}

/// Words joined by single spaces.
pub open spec fn join_words(ws: Seq<Seq<char>>) -> Seq<char>
    decreases ws.len(),
{
    if ws.len() == 0 {
        Seq::empty()
    } else if ws.len() == 1 {
        ws[0]
    } else {
        ws[0] + seq![' '] + join_words(ws.drop_first())
    }
}

/// `i` is the first word equal to the query.
pub open spec fn found_at(ws: Seq<Seq<char>>, q: Seq<char>, i: int) -> bool {
    0 <= i < ws.len() && ws[i] == q && forall|j: int| 0 <= j < i ==> ws[j] != q
}

/// The three snippet parts for a word list, a query and a window size: the
/// words before the first match within half a window, the matched word
/// itself, and the words from the match onward within half a window — or
/// three empty parts when no word matches.
pub open spec fn snippet_spec(ws: Seq<Seq<char>>, q: Seq<char>, length: nat) -> (
    Seq<char>,
    Seq<char>,
    Seq<char>,
) {
    if exists|i: int| found_at(ws, q, i) {
        let i = choose|i: int| found_at(ws, q, i);
        let half = (length / 2) as int;
        let lo = if i >= half {
            i - half
        } else {
            0
        };
        let hi = if i + half <= ws.len() {
            i + half
        } else {
            ws.len() as int
        };
        (join_words(ws.subrange(lo, i)), ws[i], join_words(ws.subrange(i, hi)))
    } else {
        (Seq::<char>::empty(), Seq::<char>::empty(), Seq::<char>::empty())
    }
}

/// Appending one word to a join appends a space and the word.
proof fn lemma_join_push(ws: Seq<Seq<char>>, w: Seq<char>)
    ensures
        ws.len() == 0 ==> join_words(ws.push(w)) == w,
        ws.len() > 0 ==> join_words(ws.push(w)) == join_words(ws) + seq![' '] + w,
    decreases ws.len(),
{
    let p = ws.push(w);
    if ws.len() == 0 {
        assert(p[0] == w);
    } else if ws.len() == 1 {
        assert(p.drop_first() =~= seq![w]);
        assert(join_words(p.drop_first()) == w);
        assert(join_words(p) =~= ws[0] + seq![' '] + w);
        assert(join_words(ws) == ws[0]);
    } else {
        assert(p.drop_first() =~= ws.drop_first().push(w));
        lemma_join_push(ws.drop_first(), w);
        assert(join_words(p) == p[0] + seq![' '] + join_words(p.drop_first()));
        assert(join_words(p) =~= (ws[0] + seq![' '] + join_words(ws.drop_first())) + seq![' ']
            + w);
    }
}

/// Join the words at indices `start..end` with single spaces.
fn join_range(words: &Vec<String>, start: usize, end: usize) -> (r: String)
    requires
        start <= end <= words@.len(),
    ensures
        r@ == join_words(words@.map_values(|w: String| w@).subrange(start as int, end as int)),
{
    let ghost vs = words@.map_values(|w: String| w@);
    let mut r = String::new();
    if start == end {
        proof {
            assert(vs.subrange(start as int, start as int) =~= Seq::<Seq<char>>::empty());
        }
        return r;
    }
    r.append(words[start].as_str());
    proof {
        let one = vs.subrange(start as int, start as int + 1);
        assert(one.len() == 1 && one[0] == vs[start as int]);
        assert(r@ == join_words(one));
    }
    let mut i: usize = start + 1;
    while i < end
        invariant
            start < i <= end <= words@.len(),
            vs == words@.map_values(|w: String| w@),
            r@ == join_words(vs.subrange(start as int, i as int)),
        decreases end - i,
    {
        r.append(" ");
        r.append(words[i].as_str());
        proof {
            reveal_strlit(" ");
            let sub = vs.subrange(start as int, i as int);
            lemma_join_push(sub, vs[i as int]);
            assert(vs.subrange(start as int, i + 1) =~= sub.push(vs[i as int]));
            assert(" "@ =~= seq![' ']);
            assert(r@ =~= join_words(vs.subrange(start as int, i + 1)));
        }
        i += 1;
    }
    r
}

/// The index of the first word equal to the query, if any.
fn find_word(words: &Vec<String>, q: &String) -> (r: Option<usize>)
    ensures
        ({
            let vs = words@.map_values(|w: String| w@);
            &&& r matches Some(i) ==> i < vs.len() && vs[i as int] == q@ && (forall|j: int|
                0 <= j < i ==> vs[j] != q@)
            &&& r is None ==> forall|j: int| 0 <= j < vs.len() ==> vs[j] != q@
        }),
{
    let ghost vs = words@.map_values(|w: String| w@);
    let n = words.len();
    let mut i: usize = 0;
    while i < n
        invariant
            n == words@.len(),
            i <= n,
            vs == words@.map_values(|w: String| w@),
            forall|j: int| 0 <= j < i ==> vs[j] != q@,
        decreases n - i,
    {
        if words[i].eq(q) {
            proof {
                assert(vs[i as int] == words@[i as int]@);
            }
            return Some(i);
        }
        proof {
            assert(vs[i as int] == words@[i as int]@);
        }
        i += 1;
    }
    None
}

/// Build the snippet for one result's text: lower-case the text and the
/// query, split the text into Unicode words, and window around the first word
/// equal to the lower-cased query; the middle segment is that matched word.
pub fn make_snippet(text: &String, query: &String, length: usize) -> (r: (String, String, String))
    ensures
        ({
            let t = snippet_spec(words_of(lower_of(text@)), lower_of(query@), length as nat);
            &&& r.0@ == t.0
            &&& r.1@ == t.1
            &&& r.2@ == t.2
        }),
{
    let lower = lowercase(text.as_str());
    let lowered_query = lowercase(query.as_str());
    let words = unicode_words(lower.as_str());
    let ghost ws = words_of(lower_of(text@));
    proof {
        assert(words@.map_values(|w: String| w@) == ws);
    }
    match find_word(&words, &lowered_query) {
        None => {
            proof {
                assert forall|i: int| !found_at(ws, lower_of(query@), i) by {
                    if 0 <= i < ws.len() {
                        assert(ws[i] != lower_of(query@));
                    }
                }
            }
            (String::new(), String::new(), String::new())
        },
        Some(i) => {
            proof {
                assert(found_at(ws, lower_of(query@), i as int));
                let c = choose|c: int| found_at(ws, lower_of(query@), c);
                if c < i {
                    assert(ws[c] != lower_of(query@));
                } else if c > i {
                    assert(ws[i as int] != lower_of(query@));
                }
                assert(c == i);
            }
            let n = words.len();
            let half = length / 2;
            let lo = if i >= half {
                i - half
            } else {
                0
            };
            let hi = if n - i > half {
                i + half
            } else {
                n
            };
            let before = join_range(&words, lo, i);
            let after = join_range(&words, i, hi);
            let mid = words[i].as_str().to_owned();
            (before, mid, after)
        },
    }
}

} // verus!
