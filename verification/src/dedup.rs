//! The deduplication cache: the set of fingerprints already ingested.
//!
//! Membership gates ingestion — a capture whose fingerprint is already here
//! is a successful no-op. The set only ever grows and has no persistence of
//! its own; a restart rebuilds it by replaying storage.

use vstd::prelude::*;

verus! {

use crate::fingerprint::Fingerprint;

/// The set of fingerprints of every capture ingested so far.
pub struct DedupSet {
    items: Vec<Fingerprint>,
}

impl View for DedupSet {
    type V = Set<Seq<bool>>;

    /// The fingerprints held, as the set of their bit vectors.
    closed spec fn view(&self) -> Set<Seq<bool>> {
        Set::new(
            |b: Seq<bool>|
                exists|i: int| 0 <= i < self.items@.len() && self.items@[i]@ == b,
        )
    }
}

impl DedupSet {
    /// An empty cache: no fingerprint has been seen.
    pub fn new() -> (r: DedupSet)
        ensures
            r@ == Set::<Seq<bool>>::empty(),
    {
        let r = DedupSet { items: Vec::new() };
        proof {
            assert(r@ =~= Set::<Seq<bool>>::empty());
        }
        r
    }

    /// Whether this fingerprint has been seen before.
    pub fn contains(&self, fp: &Fingerprint) -> (r: bool)
        ensures
            r == self@.contains(fp@),
    {
        let n = self.items.len();
        let mut i: usize = 0;
        while i < n
            invariant
                n == self.items@.len(),
                i <= n,
                forall|j: int| 0 <= j < i ==> self.items@[j]@ != fp@,
            decreases n - i,
        {
            if self.items[i].equals(fp) {
                proof {
                    assert(self.items@[i as int]@ == fp@);
                }
                return true;
            }
            i += 1;
        }
        false
    }

    /// Record a fingerprint as seen.
    pub fn insert(&mut self, fp: Fingerprint)
        ensures
            final(self)@ == old(self)@.insert(fp@),
    {
        let ghost v = fp@;
        let ghost before = self.items@;
        self.items.push(fp);
        proof {
            assert forall|b: Seq<bool>| self@.contains(b) implies old(self)@.insert(v).contains(
                b,
            ) by {
                let i = choose|i: int| 0 <= i < self.items@.len() && self.items@[i]@ == b;
                if i < before.len() {
                    assert(before[i]@ == b);
                }
            }
            assert forall|b: Seq<bool>| old(self)@.insert(v).contains(b) implies self@.contains(
                b,
            ) by {
                if old(self)@.contains(b) {
                    let i = choose|i: int| 0 <= i < before.len() && before[i]@ == b;
                    assert(self.items@[i]@ == b);
                } else {
                    assert(self.items@[before.len() as int]@ == b);
                }
            }
            assert(self@ =~= old(self)@.insert(v));
        }
    }
}

} // verus!
