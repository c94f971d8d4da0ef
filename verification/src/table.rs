//! The frequency table: a hash map from owned token bytes to counts, the
//! single-lookup-and-insert increment over it, and the chunk loop that
//! folds a whole normalized chunk into the table.
use vstd::prelude::*;

use crate::laws::{lemma_counts_from_push, lemma_tokens_len_bound};
use crate::model::{bump, counts_from, lower_seq, tokens};
use crate::tokenize::{checked_tokens, is_text, normalize, TextError};

verus! {

/// Holds the hash map that backs the table. Its declaration as an outside
/// type is refused over the map's allocator parameter, so the collection
/// sits in a hidden field and is reached only through the wrappers below.
#[verifier::external_body]
pub struct TokenMap {
    map: hashbrown::HashMap<Vec<u8>, usize>,
}

/// What the backing map holds: each distinct token's bytes mapped to the
/// count stored under it.
pub uninterp spec fn raw_entries(t: TokenMap) -> Map<Seq<u8>, usize>;

impl TokenMap {
    /// Relies on hashbrown::HashMap::with_capacity: the new map is empty.
    #[verifier::external_body]
    pub fn with_capacity(capacity: usize) -> (r: TokenMap)
        ensures
            (raw_entries(r) == Map::<Seq<u8>, usize>::empty()),
    {
        TokenMap { map: hashbrown::HashMap::with_capacity(capacity) }
    }

    /// Relies on hashbrown::HashMap::get: it returns the value stored under
    /// the key, and `None` exactly when the key is absent.
    #[verifier::external_body]
    pub fn get_count(&self, word: &Vec<u8>) -> (r: Option<usize>)
        ensures
            raw_entries(*self).contains_key(word@) ==> r == Some(raw_entries(*self)[word@]),
            !raw_entries(*self).contains_key(word@) ==> r == None::<usize>,
    {
        self.map.get(word).copied()
    }

    /// Relies on hashbrown::HashMap::insert: it maps the key to the value,
    /// replacing whatever the key held before.
    #[verifier::external_body]
    pub fn put(&mut self, word: Vec<u8>, count: usize)
        ensures
            raw_entries(*final(self)) == raw_entries(*old(self)).insert(word@, count),
    {
        self.map.insert(word, count);
    }

    /// Relies on hashbrown::HashMap::insert_unique_unchecked, which skips
    /// the membership lookup: on a key that is absent - and the contract
    /// admits no other, since hashbrown leaves a present key's outcome
    /// unspecified - it adds the entry.
    #[verifier::external_body]
    pub fn put_new(&mut self, word: Vec<u8>, count: usize)
        requires
            !raw_entries(*old(self)).contains_key(word@),
        ensures
            raw_entries(*final(self)) == raw_entries(*old(self)).insert(word@, count),
    {
        self.map.insert_unique_unchecked(word, count);
    }

    /// Relies on hashbrown::HashMap::into_iter: it yields every entry of
    /// the map exactly once, in no promised order.
    #[verifier::external_body]
    pub fn into_pairs(self) -> (r: Vec<(Vec<u8>, usize)>)
        ensures
            (forall|i: int, j: int|
                #![trigger r@[i], r@[j]]
                0 <= i < j < r@.len() ==> r@[i].0@ != r@[j].0@),
            (forall|i: int|
                #![trigger r@[i]]
                0 <= i < r@.len() ==> raw_entries(self).contains_key(r@[i].0@) && r@[i].1
                    == raw_entries(self)[r@[i].0@]),
            (forall|w: Seq<u8>|
                raw_entries(self).contains_key(w) ==> exists|i: int|
                    0 <= i < r@.len() && (#[trigger] r@[i]).0@ == w),
    {
        self.map.into_iter().collect()
    }
}

/// The views of drained pairs: token bytes and count, in list order.
pub open spec fn pair_views(s: Seq<(Vec<u8>, usize)>) -> Seq<(Seq<u8>, nat)> {
    s.map(|i: int, p: (Vec<u8>, usize)| (p.0@, p.1 as nat))
}

/// `ps` lists exactly the entries of `m`: no token twice, every pair an
/// entry of `m`, and every entry of `m` listed.
pub open spec fn lists_entries(ps: Seq<(Seq<u8>, nat)>, m: Map<Seq<u8>, nat>) -> bool {
    &&& (forall|i: int, j: int|
        #![trigger ps[i], ps[j]]
        0 <= i < j < ps.len() ==> ps[i].0 != ps[j].0)
    &&& (forall|i: int|
        0 <= i < ps.len() ==> m.contains_key((#[trigger] ps[i]).0) && ps[i].1 == m[ps[i].0])
    &&& (forall|w: Seq<u8>|
        #[trigger] m.contains_key(w) ==> exists|i: int|
            0 <= i < ps.len() && (#[trigger] ps[i]).0 == w)
}

/// The frequency table of the run: a token-to-count map together with the
/// number of token occurrences recorded so far.
pub struct FrequencyTable {
    counts: TokenMap,
    total: usize,
}

impl View for FrequencyTable {
    type V = Map<Seq<u8>, nat>;

    /// The abstract frequency map the table holds.
    closed spec fn view(&self) -> Map<Seq<u8>, nat> {
        raw_entries(self.counts).map_values(|v: usize| v as nat)
    }
}

impl FrequencyTable {
    /// How many token occurrences have been recorded.
    pub closed spec fn spec_total(&self) -> nat {
        self.total as nat
    }

    /// Well-formed: no single count exceeds the total recorded, so a count
    /// can still rise while the total fits the machine word.
    pub closed spec fn wf(&self) -> bool {
        forall|w: Seq<u8>| #[trigger] self@.contains_key(w) ==> self@[w] <= self.spec_total()
    }

    /// A fresh, empty table, pre-sized for about the expected number of
    /// distinct words so the stream rarely forces a rehash.
    pub fn with_capacity(capacity: usize) -> (r: FrequencyTable)
        ensures
            r@ == Map::<Seq<u8>, nat>::empty(),
            r.spec_total() == 0,
            r.wf(),
    {
        let r = FrequencyTable { counts: TokenMap::with_capacity(capacity), total: 0 };
        proof {
            assert(r@ =~= Map::<Seq<u8>, nat>::empty());
        }
        r
    }

    /// The number of token occurrences recorded so far.
    pub fn occurrences(&self) -> (r: usize)
        ensures
            r == self.spec_total(),
    {
        self.total
    }

    /// Records one occurrence of `word`: one lookup decides membership; a
    /// hit raises the stored count by one, a miss inserts a fresh count of
    /// one on the path that skips the second lookup.
    pub fn increment(&mut self, word: Vec<u8>)
        requires
            old(self).wf(),
            old(self).spec_total() < usize::MAX,
        ensures
            final(self).wf(),
            final(self)@ == bump(old(self)@, word@),
            final(self).spec_total() == old(self).spec_total() + 1,
    {
        let ghost prev = self@;
        let ghost prev_total = self.spec_total();
        match self.counts.get_count(&word) {
            Some(count) => {
                proof {
                    assert(prev.contains_key(word@));
                    assert(prev[word@] == count as nat);
                    assert(count as nat <= prev_total);
                }
                self.counts.put(word, count + 1);
            },
            None => {
                proof {
                    assert(!prev.contains_key(word@));
                }
                self.counts.put_new(word, 1);
            },
        }
        self.total = self.total + 1;
        proof {
            assert(self@ =~= bump(prev, word@));
            assert forall|w: Seq<u8>| #[trigger] self@.contains_key(w) implies self@[w]
                <= self.spec_total() by {
                if w != word@ {
                    assert(prev.contains_key(w));
                }
            }
        }
    }

    /// Drains the table into its (token, count) pairs, each distinct token
    /// exactly once, in no promised order.
    pub fn into_pairs(self) -> (r: Vec<(Vec<u8>, usize)>)
        ensures
            (lists_entries(pair_views(r@), self@)),
    {
        let ghost m = self@;
        let ghost raw = raw_entries(self.counts);
        let r = self.counts.into_pairs();
        proof {
            let ps = pair_views(r@);
            assert(ps.len() == r@.len());
            assert forall|w: Seq<u8>| #[trigger] m.contains_key(w) implies raw.contains_key(w)
                && m[w] == raw[w] as nat by {}
            assert forall|w: Seq<u8>| #[trigger] raw.contains_key(w) implies m.contains_key(w)
                && m[w] == raw[w] as nat by {}
            assert forall|i: int| 0 <= i < ps.len() implies m.contains_key(
                (#[trigger] ps[i]).0,
            ) && ps[i].1 == m[ps[i].0] by {
                assert(ps[i] == (r@[i].0@, r@[i].1 as nat));
                assert(raw.contains_key(r@[i].0@));
            }
            assert forall|w: Seq<u8>| #[trigger] m.contains_key(w) implies exists|i: int|
                0 <= i < ps.len() && (#[trigger] ps[i]).0 == w by {
                assert(raw.contains_key(w));
                let i = choose|i: int| 0 <= i < r@.len() && (#[trigger] r@[i]).0@ == w;
                assert(ps[i] == (r@[i].0@, r@[i].1 as nat));
                assert(0 <= i < ps.len() && ps[i].0 == w);
            }
            assert forall|i: int, j: int|
                #![trigger ps[i], ps[j]]
                0 <= i < j < ps.len() implies ps[i].0 != ps[j].0 by {
                assert(ps[i] == (r@[i].0@, r@[i].1 as nat));
                assert(ps[j] == (r@[j].0@, r@[j].1 as nat));
            }
        }
        r
    }

    /// Consumes one chunk as the sequential loop does: folds it to
    /// lowercase, refuses it unless it is well-formed text, and otherwise
    /// records every one of its tokens, in stream order. A refused chunk
    /// leaves the table unchanged.
    pub fn consume_chunk(&mut self, chunk: Vec<u8>) -> (r: Result<(), TextError>)
        requires
            old(self).wf(),
            old(self).spec_total() + chunk@.len() <= usize::MAX,
        ensures
            final(self).wf(),
            r is Ok <==> is_text(lower_seq(chunk@)),
            r is Ok ==> final(self)@ == counts_from(old(self)@, tokens(lower_seq(chunk@)))
                && final(self).spec_total() == old(self).spec_total() + tokens(
                lower_seq(chunk@),
            ).len(),
            r is Err ==> final(self)@ == old(self)@ && final(self).spec_total() == old(
                self,
            ).spec_total(),
    {
        let mut buf = chunk;
        normalize(&mut buf);
        let ghost m0 = self@;
        let ghost total0 = self.spec_total();
        match checked_tokens(&buf) {
            Err(e) => Err(e),
            Ok(mut toks) => {
                let ghost ts = toks.deep_view();
                proof {
                    lemma_tokens_len_bound(buf@, Seq::empty());
                    assert(ts.len() <= chunk@.len());
                }
                let ghost mut k: int = 0;
                proof {
                    assert(ts.skip(0) =~= ts);
                    assert(ts.take(0) =~= Seq::<Seq<u8>>::empty());
                }
                while toks.len() > 0
                    invariant
                        0 <= k <= ts.len(),
                        ts.len() <= chunk@.len(),
                        toks.deep_view() == ts.skip(k),
                        self.wf(),
                        self@ == counts_from(m0, ts.take(k)),
                        self.spec_total() == total0 + k,
                        total0 + chunk@.len() <= usize::MAX,
                    decreases toks.len(),
                {
                    proof {
                        assert(ts.skip(k).len() == ts.len() - k);
                        assert(k < ts.len());
                    }
                    let ghost prev_view = toks@;
                    let w = toks.remove(0);
                    proof {
                        assert(w@ == prev_view[0]@);
                        assert(prev_view[0]@ == ts.skip(k)[0]);
                        assert(ts.skip(k)[0] == ts[k]);
                        assert(toks@ =~= prev_view.skip(1));
                        assert forall|i: int| 0 <= i < toks@.len() implies toks.deep_view()[i]
                            == ts.skip(k + 1)[i] by {
                            assert(toks@[i] == prev_view[i + 1]);
                            assert(ts.skip(k + 1)[i] == ts[k + 1 + i]);
                            assert(ts.skip(k)[i + 1] == ts[k + 1 + i]);
                        }
                        assert(toks.deep_view() =~= ts.skip(k + 1));
                    }
                    self.increment(w);
                    proof {
                        lemma_counts_from_push(m0, ts.take(k), ts[k]);
                        assert(ts.take(k).push(ts[k]) =~= ts.take(k + 1));
                        k = k + 1;
                    }
                }
                proof {
                    assert(ts.skip(k).len() == 0);
                    assert(k == ts.len());
                    assert(ts.take(k) =~= ts);
                }
                Ok(())
            },
        }
    }
}

} // verus!
